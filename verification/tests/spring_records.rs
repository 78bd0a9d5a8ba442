use puzzle_kit::springs::{factorial, n_choose_k, Condition, Record};

#[test]
fn test_generate_damage_record() {
    let record = Record::parse(".#.#.# 1,1,1");
    assert_eq!(Record::generate_damage_record(&record.record), vec![1, 1, 1]);
    let record2 = Record::parse(".#.##..###. 1,2,3");
    assert_eq!(Record::generate_damage_record(&record2.record), vec![1, 2, 3]);
}

#[test]
fn test_get_all_permutations() {
    assert_eq!(Record::get_all_permutations(4, 1).len(), 4);
    assert_eq!(Record::get_all_permutations(4, 2).len(), 6);
    assert_eq!(Record::get_all_permutations(4, 3).len(), 4);
    assert_eq!(Record::get_all_permutations(4, 4).len(), 1);
}

#[test]
fn test_help() {
    let record_5 = Record::parse("?????????????? 1,1,1,1");
    assert_eq!(record_5.get_valid_permutations(), 330);
}

#[test]
fn test_reduce_mystery_record() {
    let record_1 = Record::parse("???? 1,1");
    assert_eq!(record_1.reduce_mystery_record(), record_1);

    let record_2 = Record::parse("???? 2,1");
    assert_eq!(record_2.reduce_mystery_record(), Record::parse("??? 1,1"));

    let record_3 = Record::parse("??????? 2,1,3");
    assert_eq!(record_3.reduce_mystery_record(), Record::parse("???? 1,1,1"));
}

#[test]
fn test_parse_record() {
    let record = Record::parse("?#?.. 2,1");
    assert_eq!(
        record.record,
        vec![
            Condition::Unkown,
            Condition::Damaged,
            Condition::Unkown,
            Condition::Good,
            Condition::Good
        ]
    );
    assert_eq!(record.damage_record, vec![2, 1]);
    assert_eq!(record.unknown_count, 2);
}

#[test]
fn test_fold_record() {
    let record = Record::parse(".# 1");
    let folded = record.fold(5);
    assert_eq!(
        folded,
        Record {
            record: vec![
                Condition::Good,
                Condition::Damaged,
                Condition::Unkown,
                Condition::Good,
                Condition::Damaged,
                Condition::Unkown,
                Condition::Good,
                Condition::Damaged,
                Condition::Unkown,
                Condition::Good,
                Condition::Damaged,
                Condition::Unkown,
                Condition::Good,
                Condition::Damaged,
            ],
            damage_record: vec![1, 1, 1, 1, 1],
            unknown_count: 4,
        }
    );
}

#[test]
fn test_small_valid_permutations() {
    // the classic single-row case: one way to satisfy three tight groups
    let record = Record::parse("???.### 1,1,3");
    assert_eq!(record.get_valid_permutations(), 1);
}

#[test]
fn test_generate_groups() {
    let mut lut = std::collections::BTreeMap::new();
    let groups = Record::generate_groups(3, &mut lut);
    assert_eq!(groups, vec![vec![3], vec![2, 1], vec![1, 2], vec![1, 1, 1]]);
    // the lookup table serves the same listing again
    assert_eq!(Record::generate_groups(3, &mut lut), groups);
}

#[test]
fn test_factorials() {
    assert_eq!(factorial(0), 1);
    assert_eq!(factorial(5), 120);
    assert_eq!(n_choose_k(4, 2), 6);
    assert_eq!(n_choose_k(14, 4), 1001);
}
