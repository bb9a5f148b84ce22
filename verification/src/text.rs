//! Tag-string handling: splitting a text into whitespace-delimited
//! tokens, and splitting a `field=value` pair at its first equals sign.

use vstd::prelude::*;
use vstd::string::StrSliceExecFns;

verus! {

/// Whether `c` is ASCII whitespace: space, tab, line feed, form feed or
/// carriage return.
pub open spec fn is_ws(c: char) -> bool {
    c == ' ' || c == '\t' || c == '\n' || c == '\u{c}' || c == '\r'
}

fn is_ws_exec(c: char) -> (r: bool)
    ensures
        r == is_ws(c),
{
    c == ' ' || c == '\t' || c == '\n' || c == '\u{c}' || c == '\r'
}

/// Length of the leading run of non-whitespace characters.
pub open spec fn run_len(s: Seq<char>) -> nat
    decreases s.len(),
{
    if s.len() == 0 || is_ws(s[0]) {
        0
    } else {
        (1 + run_len(s.drop_first())) as nat
    }
}

proof fn lemma_run_len_le(s: Seq<char>)
    ensures
        run_len(s) <= s.len(),
    decreases s.len(),
{
    if s.len() != 0 && !is_ws(s[0]) {
        lemma_run_len_le(s.drop_first());
    }
}

proof fn lemma_run_len_char(s: Seq<char>, k: int)
    requires
        0 <= k <= s.len(),
        forall|m: int| 0 <= m < k ==> !is_ws(#[trigger] s[m]),
        k == s.len() || is_ws(s[k]),
    ensures
        run_len(s) == k,
    decreases k,
{
    if k == 0 {
    } else {
        let t = s.drop_first();
        assert forall|m: int| 0 <= m < k - 1 implies !is_ws(#[trigger] t[m]) by {
            assert(t[m] == s[m + 1]);
        }
        if k - 1 < t.len() {
            assert(t[k - 1] == s[k]);
        }
        lemma_run_len_char(t, k - 1);
    }
}

/// The whitespace-delimited tokens of `s`, in order.  Runs of whitespace
/// separate tokens; a string of only whitespace has no tokens.
pub open spec fn tokens_of(s: Seq<char>) -> Seq<Seq<char>>
    decreases s.len()
        via tokens_of_dec
{
    if s.len() == 0 {
        Seq::empty()
    } else if is_ws(s[0]) {
        tokens_of(s.drop_first())
    } else {
        seq![s.take(run_len(s) as int)] + tokens_of(s.skip(run_len(s) as int))
    }
}

#[via_fn]
proof fn tokens_of_dec(s: Seq<char>) {
    if s.len() != 0 && !is_ws(s[0]) {
        lemma_run_len_le(s);
    }
}

proof fn lemma_tokens_ws(s: Seq<char>, i: int)
    requires
        0 <= i < s.len(),
        is_ws(s[i]),
    ensures
        tokens_of(s.skip(i)) == tokens_of(s.skip(i + 1)),
{
    let t = s.skip(i);
    assert(t[0] == s[i]);
    assert(t.drop_first() =~= s.skip(i + 1));
}

proof fn lemma_tokens_token(s: Seq<char>, i: int, j: int)
    requires
        0 <= i < j <= s.len(),
        forall|m: int| i <= m < j ==> !is_ws(#[trigger] s[m]),
        j == s.len() || is_ws(s[j]),
    ensures
        tokens_of(s.skip(i)) == seq![s.subrange(i, j)] + tokens_of(s.skip(j)),
{
    let t = s.skip(i);
    assert forall|m: int| 0 <= m < j - i implies !is_ws(#[trigger] t[m]) by {
        assert(t[m] == s[i + m]);
    }
    if j - i < t.len() {
        assert(t[j - i] == s[j]);
    }
    lemma_run_len_char(t, j - i);
    assert(t[0] == s[i]);
    assert(t.take(j - i) =~= s.subrange(i, j));
    assert(t.skip(j - i) =~= s.skip(j));
}

/// Splits `s` on runs of whitespace, discarding empty tokens.
pub fn split_whitespace_tokens(s: &str) -> (r: Vec<String>)
    ensures
        r@.map_values(|t: String| t@) == tokens_of(s@),
{
    let n = s.unicode_len();
    let mut out: Vec<String> = Vec::new();
    let mut i: usize = 0;
    proof {
        assert(s@.skip(0) =~= s@);
        assert(out@.map_values(|t: String| t@) + tokens_of(s@) =~= tokens_of(s@));
    }
    while i < n
        invariant
            n == s@.len(),
            i <= n,
            tokens_of(s@) == out@.map_values(|t: String| t@) + tokens_of(s@.skip(i as int)),
        decreases n - i,
    {
        let c = s.get_char(i);
        if is_ws_exec(c) {
            proof {
                lemma_tokens_ws(s@, i as int);
            }
            i += 1;
        } else {
            let start = i;
            i += 1;
            while i < n && !is_ws_exec(s.get_char(i))
                invariant
                    n == s@.len(),
                    start < i <= n,
                    forall|m: int| start <= m < i ==> !is_ws(#[trigger] s@[m]),
                decreases n - i,
            {
                i += 1;
            }
            let tok = s.substring_char(start, i);
            out.push(tok.to_owned());
            proof {
                lemma_tokens_token(s@, start as int, i as int);
                assert(out@.map_values(|t: String| t@) =~= out@.drop_last().map_values(
                    |t: String| t@,
                ) + seq![s@.subrange(start as int, i as int)]);
                assert(out@.map_values(|t: String| t@) + tokens_of(s@.skip(i as int))
                    =~= out@.drop_last().map_values(|t: String| t@) + (seq![
                    s@.subrange(start as int, i as int),
                ] + tokens_of(s@.skip(i as int))));
            }
        }
    }
    proof {
        assert(s@.skip(n as int) =~= Seq::<char>::empty());
        assert(out@.map_values(|t: String| t@) + Seq::<Seq<char>>::empty() =~= out@.map_values(
            |t: String| t@,
        ));
    }
    out
}

/// Whether `s` holds an equals sign.
pub open spec fn has_eq(s: Seq<char>) -> bool {
    exists|m: int| 0 <= m < s.len() && s[m] == '='
}

/// Position of the first equals sign of `s`.
pub open spec fn first_eq(s: Seq<char>) -> nat
    decreases s.len(),
{
    if s.len() == 0 || s[0] == '=' {
        0
    } else {
        (1 + first_eq(s.drop_first())) as nat
    }
}

/// What stands before the first equals sign.
pub open spec fn field_of(s: Seq<char>) -> Seq<char> {
    s.take(first_eq(s) as int)
}

/// What stands after the first equals sign; later equals signs are kept.
pub open spec fn value_of(s: Seq<char>) -> Seq<char> {
    s.skip(first_eq(s) as int + 1)
}

proof fn lemma_first_eq_char(s: Seq<char>, k: int)
    requires
        0 <= k < s.len(),
        forall|m: int| 0 <= m < k ==> #[trigger] s[m] != '=',
        s[k] == '=',
    ensures
        first_eq(s) == k,
    decreases k,
{
    if k != 0 {
        let t = s.drop_first();
        assert forall|m: int| 0 <= m < k - 1 implies #[trigger] t[m] != '=' by {
            assert(t[m] == s[m + 1]);
        }
        assert(t[k - 1] == s[k]);
        lemma_first_eq_char(t, k - 1);
    }
}

/// Splits `s` at its first equals sign into the field name and the value.
pub fn split_field_value(s: &str) -> (r: (String, String))
    requires
        has_eq(s@),
    ensures
        r.0@ == field_of(s@),
        r.1@ == value_of(s@),
{
    let n = s.unicode_len();
    proof {
        let w = choose|m: int| 0 <= m < s@.len() && s@[m] == '=';
        assert(0 < n);
    }
    let mut i: usize = 0;
    while s.get_char(i) != '='
        invariant
            n == s@.len(),
            0 <= i < n,
            forall|m: int| 0 <= m < i ==> #[trigger] s@[m] != '=',
            has_eq(s@),
        decreases n - i,
    {
        proof {
            let w = choose|m: int| 0 <= m < s@.len() && s@[m] == '=';
            assert(w > i);
        }
        i += 1;
    }
    proof {
        lemma_first_eq_char(s@, i as int);
        assert(s@.subrange(0, i as int) =~= field_of(s@));
        assert(s@.subrange(i as int + 1, n as int) =~= value_of(s@));
    }
    let field = s.substring_char(0, i);
    let value = s.substring_char(i + 1, n);
    (field.to_owned(), value.to_owned())
}

} // verus!
