use unicode_truncate::UnicodeTruncateStr;
use vstd::prelude::*;
use vstd::string::*;

verus! {

/// Display width to which card texts are cut in labels.
pub const TEXT_WIDTH: usize = 30;

/// What `unicode_truncate` keeps of a text when cutting it to a display width.
pub uninterp spec fn truncated_to_width(s: Seq<char>, width: nat) -> Seq<char>;

/// Relies on `UnicodeTruncateStr::unicode_truncate`: it returns a leading part of
/// the text (the slice up to a char boundary) that depends on the text and the
/// width alone, and it neither asserts nor overflows on any text.
#[verifier::external_body]
fn truncate_to_width(text: &str, width: usize) -> (r: String)
    ensures
        r@ == truncated_to_width(text@, width as nat),
        r@.len() <= text@.len(),
        r@ == text@.subrange(0, r@.len() as int),
{
    text.unicode_truncate(width).0.to_owned()
}

/// The text as it appears once cut down to `truncated`: the kept part followed by
/// `...` when something was cut, the whole text otherwise.
pub open spec fn ellipsis_spec(text: Seq<char>, truncated: Seq<char>) -> Seq<char> {
    if truncated.len() < text.len() {
        truncated + "..."@
    } else {
        text
    }
}

/// Builds the displayed form of `text` from what was kept of it.
pub fn ellipsis_from(text: &str, truncated: &str) -> (r: String)
    ensures
        r@ == ellipsis_spec(text@, truncated@),
{
    if truncated.unicode_len() < text.unicode_len() {
        let mut r = truncated.to_owned();
        r.append("...");
        r
    } else {
        text.to_owned()
    }
}

/// Cuts `text` to at most `width` columns, marking a cut with `...`.
pub fn ellipsis(text: &str, width: usize) -> (r: String)
    ensures
        r@ == ellipsis_spec(text@, truncated_to_width(text@, width as nat)),
{
    let truncated = truncate_to_width(text, width);
    ellipsis_from(text, truncated.as_str())
}

/// The decimal digit for `d < 10`.
pub open spec fn digit_char(d: nat) -> char {
    if d == 0 { '0' }
    else if d == 1 { '1' }
    else if d == 2 { '2' }
    else if d == 3 { '3' }
    else if d == 4 { '4' }
    else if d == 5 { '5' }
    else if d == 6 { '6' }
    else if d == 7 { '7' }
    else if d == 8 { '8' }
    else { '9' }
}

/// The decimal notation of `n`, without leading zeros.
pub open spec fn decimal(n: nat) -> Seq<char>
    decreases n,
{
    if n < 10 {
        seq![digit_char(n)]
    } else {
        decimal(n / 10).push(digit_char(n % 10))
    }
}

fn digit_str(d: usize) -> (r: &'static str)
    requires
        d < 10,
    ensures
        r@ == seq![digit_char(d as nat)],
{
    proof {
        reveal_strlit("0");
        reveal_strlit("1");
        reveal_strlit("2");
        reveal_strlit("3");
        reveal_strlit("4");
        reveal_strlit("5");
        reveal_strlit("6");
        reveal_strlit("7");
        reveal_strlit("8");
        reveal_strlit("9");
    }
    if d == 0 { "0" }
    else if d == 1 { "1" }
    else if d == 2 { "2" }
    else if d == 3 { "3" }
    else if d == 4 { "4" }
    else if d == 5 { "5" }
    else if d == 6 { "6" }
    else if d == 7 { "7" }
    else if d == 8 { "8" }
    else { "9" }
}

/// Appends the decimal notation of `n` to `out`.
pub fn push_decimal(out: &mut String, n: usize)
    ensures
        final(out)@ == old(out)@ + decimal(n as nat),
    decreases n,
{
    if n >= 10 {
        push_decimal(out, n / 10);
    }
    out.append(digit_str(n % 10));
}

/// Whether `s` is in ascending order.
pub open spec fn is_sorted(s: Seq<usize>) -> bool {
    forall|i: int, j: int| 0 <= i < j < s.len() ==> s[i] <= s[j]
}

/// Puts the numbers of `v` in ascending order.
pub fn sort(v: &mut Vec<usize>)
    ensures
        is_sorted(final(v)@),
        final(v)@.to_multiset() == old(v)@.to_multiset(),
{
    broadcast use vstd::seq_lib::group_to_multiset_ensures;
    let mut out: Vec<usize> = Vec::new();
    let n = v.len();
    let mut i: usize = 0;
    while i < n
        invariant
            n == v.len(),
            i <= n,
            is_sorted(out@),
            out@.to_multiset() == v@.subrange(0, i as int).to_multiset(),
        decreases n - i,
    {
        let x = v[i];
        let mut pos: usize = 0;
        while pos < out.len() && out[pos] <= x
            invariant
                pos <= out.len(),
                forall|k: int| 0 <= k < pos ==> out@[k] <= x,
            decreases out.len() - pos,
        {
            pos = pos + 1;
        }
        proof {
            assert(forall|k: int| pos <= k < out.len() ==> out@[k] > x) by {
                assert forall|k: int| pos <= k < out.len() implies out@[k] > x by {
                    assert(out@[pos as int] > x);
                    assert(out@[pos as int] <= out@[k]);
                }
            }
            assert(v@.subrange(0, i + 1) == v@.subrange(0, i as int).push(x));
            vstd::seq_lib::to_multiset_build(v@.subrange(0, i as int), x);
            vstd::seq_lib::to_multiset_insert(out@, pos as int, x);
        }
        out.insert(pos, x);
        i = i + 1;
    }
    proof {
        assert(v@.subrange(0, n as int) == v@);
    }
    *v = out;
}

} // verus!
