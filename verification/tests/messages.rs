use cw_zodiatic::bindings::{LunarResponse, ZodiaticMsg, ZodiaticQuery};
use cw_zodiatic::msg::{into_tuples, FindLunarResponse, GetLunarResponse, Predicate};
use cw_zodiatic::text::split_whitespace_tokens;
use cw_zodiatic::types::Lunar;

#[test]
fn into_tuples_splits_at_the_first_equals_sign() {
    let pairs = into_tuples(vec!["good_for=X", "bad_for=Y=Z", "f="]);
    assert_eq!(
        pairs,
        vec![
            ("good_for".to_string(), "X".to_string()),
            ("bad_for".to_string(), "Y=Z".to_string()),
            ("f".to_string(), "".to_string()),
        ]
    );
}

#[test]
fn predicate_builders_wrap_the_split_pairs() {
    let p = Predicate::and(vec!["good_for=X"]);
    assert_eq!(
        p,
        Predicate::And(vec![("good_for".to_string(), "X".to_string())])
    );
    let q = Predicate::and_not(vec!["bad_for=Y"]);
    assert_eq!(
        q,
        Predicate::AndNot(vec![("bad_for".to_string(), "Y".to_string())])
    );
}

#[test]
fn tokenizer_splits_on_whitespace_runs() {
    assert_eq!(
        split_whitespace_tokens("  a  b\tc \n"),
        vec!["a".to_string(), "b".to_string(), "c".to_string()]
    );
    assert_eq!(split_whitespace_tokens(""), Vec::<String>::new());
    assert_eq!(split_whitespace_tokens(" \t "), Vec::<String>::new());
    assert_eq!(
        split_whitespace_tokens("慶賜 解除"),
        vec!["慶賜".to_string(), "解除".to_string()]
    );
}

#[test]
fn lunar_new_keeps_its_fields() {
    let l = Lunar::new("2022-01-01", (2021, 11, 29), "a", "b", "c", "d", "e");
    assert_eq!(l.date, "2022-01-01");
    assert_eq!(l.lunar_number, (2021, 11, 29));
    assert_eq!(l.lunar, "a");
    assert_eq!(l.eight_words, "b");
    assert_eq!(l.god_direction, "c");
    assert_eq!(l.good_for, "d");
    assert_eq!(l.bad_for, "e");
    assert_eq!(l.clone(), l);
}

#[test]
fn lunar_default_is_empty() {
    let l = Lunar::default();
    assert_eq!(l, Lunar::new("", (0, 0, 0), "", "", "", "", ""));
}

#[test]
fn binding_builders_wrap_their_fields() {
    let lunar = Lunar::default();
    let msg = ZodiaticMsg::create_lunar("creator".to_string(), 220101, lunar.clone());
    assert_eq!(
        msg,
        ZodiaticMsg::CreateLunar {
            creator: "creator".to_string(),
            yyyymmdd: 220101,
            lunar: lunar.clone(),
        }
    );
    let q = ZodiaticQuery::lunar(220101);
    assert_eq!(q, ZodiaticQuery::Lunar { yyyymmdd: 220101 });
    let resp = LunarResponse { lunar: lunar.clone() };
    assert_eq!(resp.lunar, lunar);
    let get = GetLunarResponse { lunar: lunar.clone() };
    assert_eq!(get.lunar, Lunar::default());
    let find = FindLunarResponse { result: vec![lunar] };
    assert_eq!(find.result.len(), 1);
}
