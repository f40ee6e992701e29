use vstd::prelude::*;

verus! {

/// `a` sorts strictly after `b` when compared code point by code point, a
/// proper prefix sorting first. For ISO-style timestamps this is calendar order.
pub open spec fn text_after(a: Seq<char>, b: Seq<char>) -> bool
    decreases a.len(),
{
    if a.len() == 0 {
        false
    } else if b.len() == 0 {
        true
    } else if a[0] != b[0] {
        (a[0] as int) > (b[0] as int)
    } else {
        text_after(a.drop_first(), b.drop_first())
    }
}

/// The calendar-date part of a timestamp: everything before its first space.
pub open spec fn date_of(ts: Seq<char>) -> Seq<char>
    decreases ts.len(),
{
    if ts.len() == 0 {
        ts
    } else if ts[0] == ' ' {
        Seq::empty()
    } else {
        seq![ts[0]] + date_of(ts.drop_first())
    }
}

/// The suffix that puts a timestamp at midnight of its date.
pub open spec fn midnight_suffix() -> Seq<char> {
    seq![' ', '0', '0', ':', '0', '0', ':', '0', '0']
}

/// A text with no space in it.
pub open spec fn spaceless(s: Seq<char>) -> bool {
    forall|i: int| 0 <= i < s.len() ==> s[i] != ' '
}

pub proof fn lemma_after_total(a: Seq<char>, b: Seq<char>)
    ensures
        a == b || text_after(a, b) || text_after(b, a),
        !(text_after(a, b) && text_after(b, a)),
    decreases a.len(),
{
    if a.len() > 0 && b.len() > 0 && a[0] == b[0] {
        lemma_after_total(a.drop_first(), b.drop_first());
        if a.drop_first() == b.drop_first() {
            assert(a =~= seq![a[0]] + a.drop_first());
            assert(b =~= seq![b[0]] + b.drop_first());
        }
    } else if a.len() == 0 && b.len() == 0 {
        assert(a =~= b);
    } else if a.len() > 0 && b.len() > 0 {
        assert((a[0] as int) != (b[0] as int));
    }
}

pub proof fn lemma_after_transitive(a: Seq<char>, b: Seq<char>, c: Seq<char>)
    requires
        text_after(a, b),
        text_after(b, c),
    ensures
        text_after(a, c),
    decreases a.len(),
{
    if c.len() > 0 && a[0] == b[0] && b[0] == c[0] {
        lemma_after_transitive(a.drop_first(), b.drop_first(), c.drop_first());
    }
}

/// Code-point comparison of two texts.
pub fn is_after(a: &str, b: &str) -> (r: bool)
    ensures
        r == text_after(a@, b@),
{
    let la = a.unicode_len();
    let lb = b.unicode_len();
    let mut i: usize = 0;
    assert(a@.skip(0) =~= a@);
    assert(b@.skip(0) =~= b@);
    while i < la && i < lb
        invariant
            i <= la,
            i <= lb,
            la == a@.len(),
            lb == b@.len(),
            text_after(a@, b@) == text_after(a@.skip(i as int), b@.skip(i as int)),
        decreases la - i,
    {
        let ca = a.get_char(i);
        let cb = b.get_char(i);
        if ca != cb {
            return (ca as u32) > (cb as u32);
        }
        assert(a@.skip(i as int).drop_first() =~= a@.skip(i + 1));
        assert(b@.skip(i as int).drop_first() =~= b@.skip(i + 1));
        i = i + 1;
    }
    la > lb
}

/// The date part of a timestamp.
pub fn date_part(ts: &str) -> (r: String)
    ensures
        r@ == date_of(ts@),
{
    let n = ts.unicode_len();
    let mut i: usize = 0;
    assert(ts@.skip(0) =~= ts@);
    assert(ts@.take(0) + date_of(ts@) =~= date_of(ts@));
    while i < n
        invariant
            i <= n,
            n == ts@.len(),
            date_of(ts@) == ts@.take(i as int) + date_of(ts@.skip(i as int)),
        decreases n - i,
    {
        if ts.get_char(i) == ' ' {
            assert(date_of(ts@.skip(i as int)) =~= Seq::<char>::empty());
            assert(ts@.take(i as int) + Seq::<char>::empty() =~= ts@.take(i as int));
            return ts.substring_char(0, i).to_owned();
        }
        let ghost rest = ts@.skip(i as int);
        assert(rest.drop_first() =~= ts@.skip(i + 1));
        assert(ts@.take(i as int) + (seq![rest[0]] + date_of(rest.drop_first())) =~= ts@.take(
            i + 1,
        ) + date_of(ts@.skip(i + 1)));
        i = i + 1;
    }
    assert(ts@.skip(n as int) =~= Seq::<char>::empty());
    assert(ts@.take(n as int) + Seq::<char>::empty() =~= ts@);
    ts.to_owned()
}

/// The timestamp at midnight of `date`: the date, a space and `00:00:00`.
pub fn midnight_of(date: &str) -> (r: String)
    ensures
        r@ == date@ + midnight_suffix(),
{
    let r = date.to_owned().concat(" 00:00:00");
    proof {
        reveal_strlit(" 00:00:00");
        assert(" 00:00:00"@ =~= midnight_suffix());
    }
    r
}

/// The date part of a text has no space in it.
pub proof fn lemma_date_of_spaceless(s: Seq<char>)
    ensures
        spaceless(date_of(s)),
    decreases s.len(),
{
    if s.len() > 0 && s[0] != ' ' {
        lemma_date_of_spaceless(s.drop_first());
        let r = seq![s[0]] + date_of(s.drop_first());
        assert forall|i: int| 0 <= i < r.len() implies r[i] != ' ' by {
            if i > 0 {
                assert(r[i] == date_of(s.drop_first())[i - 1]);
            }
        }
    }
}

/// A text without a space is its own date part.
pub proof fn lemma_date_of_identity(d: Seq<char>)
    requires
        spaceless(d),
    ensures
        date_of(d) == d,
    decreases d.len(),
{
    if d.len() > 0 {
        lemma_date_of_identity(d.drop_first());
        assert(seq![d[0]] + d.drop_first() =~= d);
    }
}

/// A date without a space reads back unchanged from its midnight timestamp.
pub proof fn lemma_date_of_midnight(d: Seq<char>)
    requires
        spaceless(d),
    ensures
        date_of(d + midnight_suffix()) == d,
    decreases d.len(),
{
    if d.len() == 0 {
        assert(d + midnight_suffix() =~= midnight_suffix());
        assert(date_of(midnight_suffix()) =~= d);
    } else {
        assert((d + midnight_suffix()).drop_first() =~= d.drop_first() + midnight_suffix());
        lemma_date_of_midnight(d.drop_first());
        assert(seq![d[0]] + d.drop_first() =~= d);
    }
}

} // verus!
