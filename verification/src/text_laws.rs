//! What holds of pieces of source text.
use crate::text::{
    Text, decimal, in_order, joined, lemma_text_order_total, signed_decimal, text_le, text_order,
};
use vstd::prelude::*;

verus! {

/// Whether `part` stands in `whole`.
pub open spec fn stands_in(part: Text, whole: Text) -> bool {
    exists|front: Text, back: Text| whole == #[trigger] ((front + part) + back)
}

/// Whether `whole` ends in `part`.
pub open spec fn ends_in(whole: Text, part: Text) -> bool {
    exists|front: Text| whole == #[trigger] (front + part)
}

pub(crate) proof fn lemma_joined_push(parts: Seq<Text>, part: Text, sep: Text)
    ensures
        joined(parts.push(part), sep) == if parts.len() == 0 {
            part
        } else {
            joined(parts, sep) + sep + part
        },
{
    assert(parts.push(part).drop_last() =~= parts);
}

/// Nothing joined is nothing, a single part joined is itself, and joined parts
/// followed by more joined parts, with the separator between them, are all the
/// parts joined.
pub proof fn law_joined(a: Seq<Text>, b: Seq<Text>, sep: Text)
    ensures
        joined(Seq::empty(), sep) == Seq::<char>::empty(),
        a.len() == 1 ==> joined(a, sep) == a[0],
        a.len() > 0 && b.len() > 0 ==> joined(a + b, sep) == joined(a, sep) + sep + joined(b, sep),
    decreases b.len(),
{
    if a.len() > 0 && b.len() > 0 {
        let less = b.drop_last();
        law_joined(a, less, sep);
        assert((a + b).drop_last() =~= a + less);
        assert(b =~= less.push(b.last()));
        lemma_joined_push(a + less, b.last(), sep);
        lemma_joined_push(less, b.last(), sep);
        assert(a + b =~= (a + less).push(b.last()));
        if less.len() == 0 {
            assert(a + less =~= a);
        } else {
            assert(joined(a, sep) + sep + joined(less, sep) + sep + b.last() =~= joined(a, sep)
                + sep + (joined(less, sep) + sep + b.last()));
        }
    }
}

/// Every part stands in what the parts are joined to.
pub proof fn law_joined_holds_every_part(parts: Seq<Text>, sep: Text, i: int)
    requires
        0 <= i < parts.len(),
    ensures
        stands_in(parts[i], joined(parts, sep)),
    decreases parts.len(),
{
    if i == parts.len() - 1 {
        let front = if parts.len() == 1 {
            Seq::empty()
        } else {
            joined(parts.drop_last(), sep) + sep
        };
        assert(joined(parts, sep) =~= (front + parts[i]) + Seq::<char>::empty());
    } else {
        let less = parts.drop_last();
        law_joined_holds_every_part(less, sep, i);
        let (front, back) = choose|front: Text, back: Text|
            joined(less, sep) == #[trigger] ((front + less[i]) + back);
        assert(joined(parts, sep) =~= (front + parts[i]) + (back + sep + parts.last()));
    }
}

/// The number that a sequence of digits stands for.
pub open spec fn read(digits: Text) -> int
    decreases digits.len(),
{
    if digits.len() == 0 {
        0
    } else {
        10 * read(digits.drop_last()) + (digits.last() as int - '0' as int)
    }
}

/// Whether `t` is a number as it is written: digits, the first of them zero only
/// if it is the only one.
pub open spec fn is_number(t: Text) -> bool {
    &&& t.len() > 0
    &&& forall|i: int| 0 <= i < t.len() ==> '0' as int <= (#[trigger] t[i]) as int <= '9' as int
    &&& t.len() > 1 ==> t[0] != '0'
}

/// A natural number is written so that it reads back as itself.
pub proof fn law_decimal_reads_back(n: nat)
    ensures
        is_number(decimal(n)),
        read(decimal(n)) == n,
    decreases n,
{
    if n < 10 {
        assert(decimal(n).drop_last() =~= Seq::empty());
        assert(read(Seq::<char>::empty()) == 0);
    } else {
        law_decimal_reads_back(n / 10);
        let front = decimal(n / 10);
        assert(decimal(n).drop_last() =~= front);
        assert(decimal(n)[0] == front[0]);
        assert forall|i: int| 0 <= i < decimal(n).len() implies '0' as int <= (
        #[trigger] decimal(n)[i]) as int <= '9' as int by {
            if i < front.len() {
                assert(decimal(n)[i] == front[i]);
            }
        }
        if front.len() == 1 {
            assert(front.drop_last() =~= Seq::empty());
            assert(read(Seq::<char>::empty()) == 0);
            assert(front[0] != '0');
        }
    }
}

/// A number is written so that it reads back as itself, with a minus sign in
/// front if and only if it is negative.
pub proof fn law_signed_decimal_reads_back(x: int)
    ensures
        x >= 0 ==> is_number(signed_decimal(x)) && read(signed_decimal(x)) == x,
        x < 0 ==> signed_decimal(x)[0] == '-' && is_number(signed_decimal(x).drop_first()) && read(
            signed_decimal(x).drop_first(),
        ) == -x,
{
    if x < 0 {
        law_decimal_reads_back((-x) as nat);
        assert(signed_decimal(x).drop_first() =~= decimal((-x) as nat));
    } else {
        law_decimal_reads_back(x as nat);
    }
}

/// Whether the first character in which `a` and `b` differ is the one at `k`, and
/// comes earlier in `a`.
pub open spec fn less_at(a: Text, b: Text, k: int) -> bool {
    &&& 0 <= k < a.len()
    &&& k < b.len()
    &&& a.take(k) == b.take(k)
    &&& (a[k] as int) < (b[k] as int)
}

/// Of two texts the one comes first that the other begins with, or that has the
/// lower code point where they first differ.
pub proof fn law_text_order(a: Text, b: Text)
    ensures
        text_le(a, b) <==> a.is_prefix_of(b) || exists|k: int| less_at(a, b, k),
    decreases a.len(),
{
    if a.len() > 0 && b.len() > 0 && a[0] == b[0] {
        let x = a.drop_first();
        let y = b.drop_first();
        law_text_order(x, y);
        if x.is_prefix_of(y) {
            assert(a =~= b.take(a.len() as int)) by {
                assert forall|i: int| 0 <= i < a.len() implies a[i] == b[i] by {
                    if i > 0 {
                        assert(x[i - 1] == y[i - 1]);
                    }
                }
            }
        }
        if a.is_prefix_of(b) {
            assert(x =~= y.take(x.len() as int));
        }
        if exists|k: int| less_at(x, y, k) {
            let k = choose|k: int| less_at(x, y, k);
            assert(a.take(k + 1) =~= b.take(k + 1)) by {
                assert forall|i: int| 0 <= i < k + 1 implies a[i] == b[i] by {
                    if i > 0 {
                        assert(x.take(k)[i - 1] == y.take(k)[i - 1]);
                    }
                }
            }
            assert(less_at(a, b, k + 1));
        }
        if exists|k: int| less_at(a, b, k) {
            let k = choose|k: int| less_at(a, b, k);
            assert(x.take(k - 1) =~= y.take(k - 1)) by {
                assert forall|i: int| 0 <= i < k - 1 implies x[i] == y[i] by {
                    assert(a.take(k)[i + 1] == b.take(k)[i + 1]);
                }
            }
            assert(less_at(x, y, k - 1));
        }
    } else if a.len() == 0 {
        assert(a =~= b.take(0));
    } else if b.len() > 0 {
        assert(a.take(0) =~= b.take(0));
        if (a[0] as int) < (b[0] as int) {
            assert(less_at(a, b, 0));
        }
        if exists|k: int| less_at(a, b, k) {
            let k = choose|k: int| less_at(a, b, k);
            if k > 0 {
                assert(a.take(k)[0] == b.take(k)[0]);
            }
        }
    }
}

/// Sorted texts are the same texts, each as often as before, and none comes
/// before one that it belongs after.
pub proof fn law_in_order(parts: Seq<Text>, i: int, j: int)
    requires
        0 <= i <= j < parts.len(),
    ensures
        in_order(parts).to_multiset() == parts.to_multiset(),
        in_order(parts).len() == parts.len(),
        in_order(parts)[i].is_prefix_of(in_order(parts)[j]) || exists|k: int|
            less_at(in_order(parts)[i], in_order(parts)[j], k),
{
    crate::text::lemma_in_order_len(parts);
    lemma_text_order_total();
    parts.lemma_sort_by_ensures(text_order());
    let s = in_order(parts);
    let le = text_order();
    assert(le(s[i], s[i]));
    assert(le(s[i], s[j]));
    law_text_order(s[i], s[j]);
}

} // verus!
