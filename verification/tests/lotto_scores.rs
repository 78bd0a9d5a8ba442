use puzzle_kit::lotto::{calc_score, LottoTicket};

#[test]
fn test_ticket_parse() {
    let ticket = LottoTicket::parse("Card 1: 41 48 83 86 17 | 83 86  6 31 17  9 48 53");
    assert_eq!(ticket.winning_numbers, vec![41, 48, 83, 86, 17]);
    assert_eq!(ticket.numbers, vec![83, 86, 6, 31, 17, 9, 48, 53]);
}

#[test]
fn test_count_winning_numbers() {
    let ticket = LottoTicket::parse("Card 1: 41 48 83 86 17 | 83 86  6 31 17  9 48 53");
    assert_eq!(ticket.count_winning_numbers(), 4);
    let blank = LottoTicket::parse("Card 2: 1 2 3 | 4 5 6");
    assert_eq!(blank.count_winning_numbers(), 0);
    // each winning number matches at most once
    let doubled = LottoTicket::parse("Card 3: 7 | 7 7");
    assert_eq!(doubled.count_winning_numbers(), 1);
    let paired = LottoTicket::parse("Card 4: 7 7 | 7 7");
    assert_eq!(paired.count_winning_numbers(), 2);
}

#[test]
fn test_calc_score() {
    assert_eq!(calc_score(0), 0);
    assert_eq!(calc_score(1), 1);
    assert_eq!(calc_score(2), 2);
    assert_eq!(calc_score(3), 4);
    assert_eq!(calc_score(4), 8);
}
