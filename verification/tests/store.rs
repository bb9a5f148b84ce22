use cw_zodiatic::bitmap::BitMap;
use cw_zodiatic::engine::{create_lunar, evaluate, insert_record, EvalError, MAX_ROWS_PER_YEAR};
use cw_zodiatic::index::TagIndex;
use cw_zodiatic::ledger::RowLedger;
use cw_zodiatic::msg::Predicate;
use cw_zodiatic::types::Lunar;

#[test]
fn test_create_lunar() {
    let mut ledger = RowLedger::new();
    let mut index = TagIndex::new();

    create_lunar(
        &mut ledger,
        &mut index,
        220101,
        &Lunar::new(
            "2022-01-01",
            (2021, 11, 29),
            "二零二一 辛醜[牛]年 冬月大廿九",
            "辛醜 庚子 甲寅 甲子",
            "喜神東北 財神東北 福神正北 陽貴西南 陰貴東北",
            "沐浴 上表章 進人口 豎柱上梁 開市 納財 掃舍宇 牧養 破土 啟攢 慶賜 解除 訴訟",
            "祭祀 冠帶 開渠 穿井 畋獵 苫蓋 遠回 乘船渡水 取魚",
        ),
    );

    create_lunar(
        &mut ledger,
        &mut index,
        220131,
        &Lunar::new(
            "2022-01-31",
            (2021, 12, 29),
            "二零二一 辛醜[牛]年 臘月小廿九",
            "辛醜 辛醜 甲申 甲子",
            "喜神東北 財神東北 福神正北 陽貴西南 陰貴東北",
            "沐浴 上表章 上官 進人口 豎柱上梁 開市 納財 掃舍宇 牧養 安葬 啟攢 施恩 納畜 招賢",
            "冠帶 修置產室 開渠 穿井 安碓磑 平治道塗 破屋壞垣 畋獵 苫蓋 補垣 取魚 築堤防",
        ),
    );

    let res = evaluate(
        &ledger,
        &index,
        22,
        &vec![
            Predicate::and(vec!["good_for=慶賜", "good_for=安葬"]),
            Predicate::and_not(vec!["bad_for=乘船渡水"]),
        ],
    )
    .unwrap();

    assert_eq!(1, res.len());
    assert_eq!(220131, res[0]);
}

fn two_rows() -> (RowLedger, TagIndex) {
    let mut ledger = RowLedger::new();
    let mut index = TagIndex::new();
    let r0 = create_lunar(
        &mut ledger,
        &mut index,
        220101,
        &Lunar::new("2022-01-01", (0, 0, 0), "", "", "", "A B", "C"),
    );
    assert_eq!(r0, 0);
    let r1 = create_lunar(
        &mut ledger,
        &mut index,
        220131,
        &Lunar::new("2022-01-31", (0, 0, 0), "", "", "", "A D", ""),
    );
    assert_eq!(r1, 1);
    (ledger, index)
}

#[test]
fn scenario_and_then_and_not() {
    let (ledger, index) = two_rows();

    let all_a = evaluate(
        &ledger,
        &index,
        22,
        &vec![Predicate::and(vec!["good_for=A"])],
    )
    .unwrap();
    assert_eq!(all_a, vec![220101, 220131]);

    let filtered = evaluate(
        &ledger,
        &index,
        22,
        &vec![
            Predicate::and(vec!["good_for=A"]),
            Predicate::and_not(vec!["bad_for=C"]),
        ],
    )
    .unwrap();
    assert_eq!(filtered, vec![220131]);
}

#[test]
fn and_not_never_returns_excluded_rows() {
    let (ledger, index) = two_rows();
    // G1 = {good_for=A} tags both rows; G2 = {good_for=B} tags row 0 only.
    let res = evaluate(
        &ledger,
        &index,
        22,
        &vec![
            Predicate::and(vec!["good_for=A"]),
            Predicate::and_not(vec!["good_for=B"]),
        ],
    )
    .unwrap();
    assert_eq!(res, vec![220131]);

    // Excluding a group that tags nothing keeps every included row.
    let res2 = evaluate(
        &ledger,
        &index,
        22,
        &vec![
            Predicate::and(vec!["good_for=A"]),
            Predicate::and_not(vec!["bad_for=Z"]),
        ],
    )
    .unwrap();
    assert_eq!(res2, vec![220101, 220131]);
}

#[test]
fn stale_index_bit_faults() {
    let mut ledger = RowLedger::new();
    let mut index = TagIndex::new();
    let fields = vec![("good_for".to_string(), "X".to_string())];
    insert_record(&mut ledger, &mut index, 7, 70101, &fields);
    // A diverged entry: bit 3 under a tag while the ledger holds one row.
    let mut stale = BitMap::new();
    stale.set(3);
    index.insert_entry(7, "good_for", "Y", stale);

    let res = evaluate(&ledger, &index, 7, &vec![Predicate::and(vec!["good_for=Y"])]);
    assert_eq!(res, Err(EvalError::RowResolutionFault));
    // The same divergence under an exclusion predicate also faults.
    let res2 = evaluate(
        &ledger,
        &index,
        7,
        &vec![Predicate::and_not(vec!["good_for=Y"])],
    );
    assert_eq!(res2, Err(EvalError::RowResolutionFault));
    // A query that does not touch the diverged key still succeeds.
    let res3 = evaluate(&ledger, &index, 7, &vec![Predicate::and(vec!["good_for=X"])]).unwrap();
    assert_eq!(res3, vec![70101]);
}

#[test]
fn unknown_year_is_year_not_found() {
    let (ledger, index) = two_rows();
    let res = evaluate(
        &ledger,
        &index,
        1999,
        &vec![Predicate::and(vec!["good_for=A"])],
    );
    assert_eq!(res, Err(EvalError::YearNotFound));
}

#[test]
fn empty_predicates_return_every_row() {
    let (ledger, index) = two_rows();
    let res = evaluate(&ledger, &index, 22, &vec![]).unwrap();
    assert_eq!(res, vec![220101, 220131]);
}

#[test]
fn exclusion_only_queries_keep_the_other_rows() {
    let (ledger, index) = two_rows();
    let res = evaluate(
        &ledger,
        &index,
        22,
        &vec![Predicate::and_not(vec!["bad_for=C"])],
    )
    .unwrap();
    assert_eq!(res, vec![220131]);
}

#[test]
fn empty_predicates_return_a_full_year_in_order() {
    let mut ledger = RowLedger::new();
    let mut index = TagIndex::new();
    let mut expected: Vec<u64> = Vec::new();
    for d in 0..MAX_ROWS_PER_YEAR as u64 {
        let key = 50000 + d;
        let row = create_lunar(
            &mut ledger,
            &mut index,
            key,
            &Lunar::new("", (0, 0, 0), "", "", "", "", ""),
        );
        assert_eq!(row, d as usize);
        expected.push(key);
    }
    let res = evaluate(&ledger, &index, 5, &vec![]).unwrap();
    assert_eq!(res, expected);
}

#[test]
fn insert_assigns_consecutive_rows_per_year() {
    let mut ledger = RowLedger::new();
    let mut index = TagIndex::new();
    let fields = vec![("good_for".to_string(), "X".to_string())];
    assert_eq!(insert_record(&mut ledger, &mut index, 7, 70101, &fields), 0);
    assert_eq!(insert_record(&mut ledger, &mut index, 7, 70102, &fields), 1);
    // Another year starts its own count.
    assert_eq!(insert_record(&mut ledger, &mut index, 8, 80101, &fields), 0);
    assert_eq!(insert_record(&mut ledger, &mut index, 7, 70103, &fields), 2);
    assert_eq!(ledger.row_count(7), 3);
    assert_eq!(ledger.row_count(8), 1);
    assert_eq!(ledger.row_count(9), 0);
}

#[test]
fn resolve_maps_rows_back_to_date_keys() {
    let (ledger, _) = two_rows();
    assert!(ledger.contains_year(22));
    assert!(!ledger.contains_year(23));
    assert_eq!(ledger.resolve(22, 0), Some(220101));
    assert_eq!(ledger.resolve(22, 1), Some(220131));
    assert_eq!(ledger.resolve(22, 2), None);
    assert_eq!(ledger.resolve(23, 0), None);
}

#[test]
fn duplicate_date_keys_stay_distinct_rows() {
    let mut ledger = RowLedger::new();
    let mut index = TagIndex::new();
    let fields = vec![("good_for".to_string(), "X".to_string())];
    assert_eq!(insert_record(&mut ledger, &mut index, 7, 70101, &fields), 0);
    assert_eq!(insert_record(&mut ledger, &mut index, 7, 70101, &fields), 1);
    let res = evaluate(&ledger, &index, 7, &vec![Predicate::and(vec!["good_for=X"])]).unwrap();
    assert_eq!(res, vec![70101, 70101]);
}

#[test]
fn every_token_is_indexed_for_its_row() {
    let mut ledger = RowLedger::new();
    let mut index = TagIndex::new();
    let fields = vec![
        ("good_for".to_string(), " alpha  beta ".to_string()),
        ("bad_for".to_string(), "gamma".to_string()),
    ];
    let row = insert_record(&mut ledger, &mut index, 7, 70101, &fields);
    assert_eq!(index.lookup(7, "good_for", "alpha").iter_ones(), vec![row]);
    assert_eq!(index.lookup(7, "good_for", "beta").iter_ones(), vec![row]);
    assert_eq!(index.lookup(7, "bad_for", "gamma").iter_ones(), vec![row]);
    // A second insert leaves the first row's bits unchanged.
    let fields2 = vec![("good_for".to_string(), "beta".to_string())];
    let row2 = insert_record(&mut ledger, &mut index, 7, 70102, &fields2);
    assert_eq!(
        index.lookup(7, "good_for", "beta").iter_ones(),
        vec![row, row2]
    );
    assert_eq!(index.lookup(7, "good_for", "alpha").iter_ones(), vec![row]);
}

#[test]
fn unindexed_tag_reads_as_empty() {
    let (_, index) = two_rows();
    assert_eq!(
        index.lookup(22, "good_for", "nope").iter_ones(),
        Vec::<usize>::new()
    );
    assert_eq!(
        index.lookup(23, "good_for", "A").iter_ones(),
        Vec::<usize>::new()
    );
}

#[test]
fn empty_tag_string_indexes_nothing() {
    let mut ledger = RowLedger::new();
    let mut index = TagIndex::new();
    let fields = vec![("good_for".to_string(), "  \t ".to_string())];
    insert_record(&mut ledger, &mut index, 7, 70101, &fields);
    assert_eq!(
        index.lookup(7, "good_for", "").iter_ones(),
        Vec::<usize>::new()
    );
    let res = evaluate(&ledger, &index, 7, &vec![Predicate::and(vec!["good_for=X"])]).unwrap();
    assert_eq!(res, Vec::<u64>::new());
}
