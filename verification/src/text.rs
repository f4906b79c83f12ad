//! Pieces of source text: joining, sorting and writing numbers.
use itertools::Itertools;
use vstd::prelude::*;
use vstd::relations::{sorted_by, total_ordering};

verus! {

/// Source text.
pub type Text = Seq<char>;

/// The texts that a sequence of strings holds.
pub open spec fn texts(strings: Seq<String>) -> Seq<Text> {
    Seq::new(strings.len(), |i: int| strings[i]@)
}

/// The texts of `parts` in order, with `sep` between each two neighbours.
pub open spec fn joined(parts: Seq<Text>, sep: Text) -> Text
    decreases parts.len(),
{
    if parts.len() == 0 {
        Seq::empty()
    } else if parts.len() == 1 {
        parts[0]
    } else {
        joined(parts.drop_last(), sep) + sep + parts.last()
    }
}

/// Whether `a` comes no later than `b` in the dictionary order of code points.
pub open spec fn text_le(a: Text, b: Text) -> bool
    decreases a.len(),
{
    ||| a.len() == 0
    ||| {
        &&& b.len() > 0
        &&& {
            ||| (a[0] as int) < (b[0] as int)
            ||| a[0] == b[0] && text_le(a.drop_first(), b.drop_first())
        }
    }
}

/// [`text_le`] as a value.
pub open spec fn text_order() -> spec_fn(Text, Text) -> bool {
    |a: Text, b: Text| text_le(a, b)
}

/// `parts` in dictionary order.
pub open spec fn in_order(parts: Seq<Text>) -> Seq<Text> {
    parts.sort_by(text_order())
}

/// The decimal digit of `n`, which is below ten.
pub open spec fn digit(n: nat) -> char {
    (48 + n) as char
}

/// `n` in decimal, without leading zeros.
pub open spec fn decimal(n: nat) -> Text
    decreases n,
{
    if n < 10 {
        seq![digit(n)]
    } else {
        decimal(n / 10).push(digit(n % 10))
    }
}

/// `x` in decimal, with a minus sign if it is negative.
pub open spec fn signed_decimal(x: int) -> Text {
    if x < 0 {
        seq!['-'] + decimal((-x) as nat)
    } else {
        decimal(x as nat)
    }
}

/// Calls `itertools::Itertools::join` on the strings: they come out in order in
/// one string, with `sep` between each two neighbours and nowhere else.
#[verifier::external_body]
pub(crate) fn join(parts: &Vec<String>, sep: &str) -> (res: String)
    ensures
        res@ == joined(texts(parts@), sep@),
{
    parts.iter().join(sep)
}

/// Calls `itertools::Itertools::sorted` on the strings: the same strings come
/// out, each as often as it went in, in the order that `String` has, which is
/// that of the code points.
#[verifier::external_body]
fn sorted(parts: &Vec<String>) -> (res: Vec<String>)
    ensures
        texts(res@).to_multiset() == texts(parts@).to_multiset(),
        sorted_by(texts(res@), text_order()),
{
    parts.iter().sorted().cloned().collect()
}

proof fn lemma_text_le_reflexive(a: Text)
    ensures
        text_le(a, a),
    decreases a.len(),
{
    if a.len() > 0 {
        lemma_text_le_reflexive(a.drop_first());
    }
}

proof fn lemma_text_le_antisymmetric(a: Text, b: Text)
    requires
        text_le(a, b),
        text_le(b, a),
    ensures
        a == b,
    decreases a.len(),
{
    if a.len() > 0 && b.len() > 0 {
        lemma_text_le_antisymmetric(a.drop_first(), b.drop_first());
        assert(a =~= seq![a[0]] + a.drop_first());
        assert(b =~= seq![b[0]] + b.drop_first());
    } else {
        assert(a =~= b);
    }
}

proof fn lemma_text_le_transitive(a: Text, b: Text, c: Text)
    requires
        text_le(a, b),
        text_le(b, c),
    ensures
        text_le(a, c),
    decreases a.len(),
{
    if a.len() > 0 && a[0] == b[0] && b[0] == c[0] {
        lemma_text_le_transitive(a.drop_first(), b.drop_first(), c.drop_first());
    }
}

proof fn lemma_text_le_total(a: Text, b: Text)
    ensures
        text_le(a, b) || text_le(b, a),
    decreases a.len(),
{
    if a.len() > 0 && b.len() > 0 && a[0] == b[0] {
        lemma_text_le_total(a.drop_first(), b.drop_first());
    }
}

/// The dictionary order is a total order.
pub proof fn lemma_text_order_total()
    ensures
        total_ordering(text_order()),
{
    let le = text_order();
    assert forall|a: Text| #[trigger] le(a, a) by {
        lemma_text_le_reflexive(a);
    }
    assert forall|a: Text, b: Text| #[trigger] le(a, b) && #[trigger] le(b, a) implies a == b by {
        lemma_text_le_antisymmetric(a, b);
    }
    assert forall|a: Text, b: Text, c: Text| #[trigger]
        le(a, b) && #[trigger] le(b, c) implies le(a, c) by {
        lemma_text_le_transitive(a, b, c);
    }
    assert forall|a: Text, b: Text| #[trigger] le(a, b) || #[trigger] le(b, a) by {
        lemma_text_le_total(a, b);
    }
}

/// Sorting neither drops nor adds a text.
pub proof fn lemma_in_order_len(parts: Seq<Text>)
    ensures
        in_order(parts).len() == parts.len(),
{
    broadcast use vstd::seq_lib::group_to_multiset_ensures;

    lemma_text_order_total();
    parts.lemma_sort_by_ensures(text_order());
    assert(in_order(parts).to_multiset().len() == parts.to_multiset().len());
}

/// The strings in dictionary order.
pub fn sort_texts(parts: &Vec<String>) -> (res: Vec<String>)
    ensures
        texts(res@) == in_order(texts(parts@)),
{
    let res = sorted(parts);
    proof {
        lemma_text_order_total();
        texts(parts@).lemma_sort_by_ensures(text_order());
        vstd::seq_lib::lemma_sorted_unique(texts(res@), in_order(texts(parts@)), text_order());
    }
    res
}

fn digit_text(n: u64) -> (res: &'static str)
    requires
        n < 10,
    ensures
        res@ == seq![digit(n as nat)],
{
    proof {
        reveal_strlit("0");
        reveal_strlit("1");
        reveal_strlit("2");
        reveal_strlit("3");
        reveal_strlit("4");
        reveal_strlit("5");
        reveal_strlit("6");
        reveal_strlit("7");
        reveal_strlit("8");
        reveal_strlit("9");
    }
    match n {
        0 => "0",
        1 => "1",
        2 => "2",
        3 => "3",
        4 => "4",
        5 => "5",
        6 => "6",
        7 => "7",
        8 => "8",
        _ => "9",
    }
}

fn decimal_text(n: u64) -> (res: String)
    ensures
        res@ == decimal(n as nat),
    decreases n,
{
    if n < 10 {
        digit_text(n).to_owned()
    } else {
        let mut res = decimal_text(n / 10);
        let ghost front = res@;
        res.append(digit_text(n % 10));
        assert(res@ =~= front.push(digit((n % 10) as nat)));
        res
    }
}

/// `x` written in decimal.
pub fn i32_text(x: i32) -> (res: String)
    ensures
        res@ == signed_decimal(x as int),
{
    if x < 0 {
        proof {
            reveal_strlit("-");
        }
        let magnitude: i64 = -(x as i64);
        let mut res = "-".to_owned();
        res.append(decimal_text(magnitude as u64).as_str());
        assert(res@ =~= seq!['-'] + decimal((-x) as nat));
        res
    } else {
        decimal_text(x as u64)
    }
}

} // verus!
