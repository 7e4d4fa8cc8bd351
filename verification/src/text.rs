//! Text as the protocol has it: bytes, numbers in decimal, fields parted by
//! single spaces.

use vstd::prelude::*;

verus! {

/// The byte of a space.
pub const SPACE: u8 = 0x20;

/// `b` is one of `0` to `9`.
pub open spec fn is_digit(b: u8) -> bool {
    0x30 <= b <= 0x39
}

/// `n` in decimal, without leading zeros.
pub open spec fn digits(n: nat) -> Seq<u8>
    decreases n,
{
    if n < 10 {
        seq![(0x30 + n) as u8]
    } else {
        digits(n / 10).push((0x30 + n % 10) as u8)
    }
}

/// Every byte of `s` is a digit.
pub open spec fn all_digits(s: Seq<u8>) -> bool {
    forall|i: int| 0 <= i < s.len() ==> is_digit(#[trigger] s[i])
}

/// The number that the digits `s` write in decimal.
pub open spec fn digits_value(s: Seq<u8>) -> nat
    decreases s.len(),
{
    if s.len() == 0 {
        0
    } else {
        (digits_value(s.drop_last()) * 10 + (s.last() - 0x30)) as nat
    }
}

/// `s` without a plus sign in front.
pub open spec fn unsigned_part(s: Seq<u8>) -> Seq<u8> {
    if s.len() > 0 && s[0] == 0x2bu8 {
        s.skip(1)
    } else {
        s
    }
}

/// The number that `s` stands for: digits, at least one, after at most one
/// plus sign, and not beyond what the machine counts to.
pub open spec fn number(s: Seq<u8>) -> Option<nat> {
    let body = unsigned_part(s);
    if body.len() > 0 && all_digits(body) && digits_value(body) <= usize::MAX {
        Some(digits_value(body))
    } else {
        None
    }
}

/// The fields of `s`: what stands between its spaces. There is always one
/// field more than there are spaces, and a field may be empty.
pub open spec fn fields(s: Seq<u8>) -> Seq<Seq<u8>>
    decreases s.len(),
{
    if s.len() == 0 {
        seq![Seq::<u8>::empty()]
    } else {
        let before = fields(s.drop_last());
        if s.last() == SPACE {
            before.push(Seq::<u8>::empty())
        } else {
            before.drop_last().push(before.last().push(s.last()))
        }
    }
}

/// The fields `ts` with a space between each two of them.
pub open spec fn joined(ts: Seq<Seq<u8>>) -> Seq<u8>
    decreases ts.len(),
{
    if ts.len() == 0 {
        Seq::empty()
    } else if ts.len() == 1 {
        ts[0]
    } else {
        joined(ts.drop_last()) + seq![SPACE] + ts.last()
    }
}

/// `s` with `with` in the place of each space.
pub open spec fn respaced(s: Seq<u8>, with: Seq<u8>) -> Seq<u8>
    decreases s.len(),
{
    if s.len() == 0 {
        Seq::empty()
    } else if s.last() == SPACE {
        respaced(s.drop_last(), with) + with
    } else {
        respaced(s.drop_last(), with).push(s.last())
    }
}

/// The bytes of `s` that satisfy `keep`, in order.
pub open spec fn kept(s: Seq<u8>, keep: spec_fn(u8) -> bool) -> Seq<u8>
    decreases s.len(),
{
    if s.len() == 0 {
        Seq::empty()
    } else if keep(s.last()) {
        kept(s.drop_last(), keep).push(s.last())
    } else {
        kept(s.drop_last(), keep)
    }
}

/// The views of a list of byte strings.
pub open spec fn views(v: Seq<Vec<u8>>) -> Seq<Seq<u8>> {
    v.map_values(|t: Vec<u8>| t@)
}

/// What `digits` writes: digits, at least one, whose value is the number.
pub proof fn lemma_digits(n: nat)
    ensures
        digits(n).len() >= 1,
        all_digits(digits(n)),
        digits_value(digits(n)) == n,
    decreases n,
{
    let s = digits(n);
    if n < 10 {
        assert(s.drop_last() =~= Seq::<u8>::empty());
        assert(digits_value(s.drop_last()) == 0);
    } else {
        lemma_digits(n / 10);
        assert(s.drop_last() =~= digits(n / 10));
        assert forall|i: int| 0 <= i < s.len() implies is_digit(#[trigger] s[i]) by {
            if i < s.len() - 1 {
                assert(s[i] == digits(n / 10)[i]);
            }
        }
    }
}

/// A number that is written and read again is the same number.
pub proof fn law_number_round_trip(n: nat)
    requires
        n <= usize::MAX,
    ensures
        number(digits(n)) == Some(n),
{
    lemma_digits(n);
    let s = digits(n);
    assert(is_digit(s[0]));
    assert(unsigned_part(s) == s);
}

/// Fields that are parted and joined again are the text they came from, and
/// a text has one field more than it has spaces.
pub proof fn law_fields_round_trip(s: Seq<u8>)
    ensures
        fields(s).len() >= 1,
        joined(fields(s)) == s,
    decreases s.len(),
{
    if s.len() == 0 {
        assert(joined(fields(s)) =~= s);
    } else {
        let before = fields(s.drop_last());
        law_fields_round_trip(s.drop_last());
        let ts = fields(s);
        if s.last() == SPACE {
            assert(ts.drop_last() =~= before);
            assert(joined(ts) =~= s.drop_last().push(SPACE));
        } else if before.len() == 1 {
            assert(ts[0] =~= before[0].push(s.last()));
            assert(joined(ts) =~= s.drop_last().push(s.last()));
        } else {
            assert(ts.drop_last() =~= before.drop_last());
            assert(joined(ts) =~= (joined(before.drop_last()) + seq![SPACE] + before.last()).push(
                s.last(),
            ));
        }
        assert(s.drop_last().push(s.last()) =~= s);
    }
}

/// The value of digits is no less than the value of fewer of them.
pub proof fn lemma_value_grows(s: Seq<u8>, k: int)
    requires
        all_digits(s),
        0 <= k <= s.len(),
    ensures
        digits_value(s.take(k)) <= digits_value(s),
    decreases s.len() - k,
{
    if k < s.len() {
        lemma_value_grows(s, k + 1);
        let t = s.take(k + 1);
        assert(t.drop_last() =~= s.take(k));
        assert(is_digit(s[k]));
        assert(t.last() == s[k]);
    } else {
        assert(s.take(k) =~= s);
    }
}

/// Appends `n` in decimal.
pub fn push_decimal(out: &mut Vec<u8>, n: usize)
    ensures
        final(out)@ == old(out)@ + digits(n as nat),
    decreases n,
{
    if n >= 10 {
        push_decimal(out, n / 10);
    }
    out.push(0x30 + (n % 10) as u8);
    proof {
        assert(out@ =~= old(out)@ + digits(n as nat));
    }
}

/// Appends the bytes of `s`.
pub fn push_all(out: &mut Vec<u8>, s: &Vec<u8>)
    ensures
        final(out)@ == old(out)@ + s@,
{
    let mut i: usize = 0;
    while i < s.len()
        invariant
            0 <= i <= s.len(),
            out@ == old(out)@ + s@.take(i as int),
        decreases s.len() - i,
    {
        out.push(s[i]);
        proof {
            assert(s@.take(i + 1) =~= s@.take(i as int).push(s@[i as int]));
            assert(out@ =~= old(out)@ + s@.take(i + 1));
        }
        i = i + 1;
    }
    proof {
        assert(s@.take(s.len() as int) =~= s@);
    }
}

/// Appends the bytes of the slice `s`.
pub fn push_slice(out: &mut Vec<u8>, s: &[u8])
    ensures
        final(out)@ == old(out)@ + s@,
{
    let mut i: usize = 0;
    while i < s.len()
        invariant
            0 <= i <= s.len(),
            out@ == old(out)@ + s@.take(i as int),
        decreases s.len() - i,
    {
        out.push(s[i]);
        proof {
            assert(s@.take(i + 1) =~= s@.take(i as int).push(s@[i as int]));
            assert(out@ =~= old(out)@ + s@.take(i + 1));
        }
        i = i + 1;
    }
    proof {
        assert(s@.take(s.len() as int) =~= s@);
    }
}

/// Whether the byte string is the given slice.
pub fn is_word(a: &Vec<u8>, b: &[u8]) -> (r: bool)
    ensures
        r == (a@ == b@),
{
    if a.len() != b.len() {
        return false;
    }
    let mut i: usize = 0;
    while i < a.len()
        invariant
            0 <= i <= a.len(),
            a.len() == b.len(),
            forall|k: int| 0 <= k < i ==> a@[k] == b@[k],
        decreases a.len() - i,
    {
        if a[i] != b[i] {
            return false;
        }
        i = i + 1;
    }
    proof {
        assert(a@ =~= b@);
    }
    true
}

/// The number that `s` stands for, if it stands for one.
pub fn parse_number(s: &Vec<u8>) -> (r: Option<usize>)
    ensures
        match r {
            Some(n) => number(s@) == Some(n as nat),
            None => number(s@).is_none(),
        },
{
    let start: usize = if s.len() > 0 && s[0] == 0x2b {
        1
    } else {
        0
    };
    let ghost body = unsigned_part(s@);
    if start == s.len() {
        return None;
    }
    let mut value: usize = 0;
    let mut i: usize = start;
    while i < s.len()
        invariant
            start <= i <= s.len(),
            start <= 1,
            body == s@.skip(start as int),
            body == unsigned_part(s@),
            all_digits(body.take(i - start)),
            value == digits_value(body.take(i - start)),
        decreases s.len() - i,
    {
        let b = s[i];
        let ghost upto = body.take(i - start + 1);
        proof {
            assert(upto.drop_last() =~= body.take(i - start));
            assert(upto.last() == b);
        }
        if b < 0x30 || b > 0x39 {
            proof {
                assert(body[i - start] == b);
                assert(!all_digits(body));
            }
            return None;
        }
        let d: usize = (b - 0x30) as usize;
        if value > (usize::MAX - d) / 10 {
            proof {
                if all_digits(body) {
                    lemma_value_grows(body, i - start + 1);
                    assert(digits_value(upto) == value * 10 + d);
                }
            }
            return None;
        }
        value = value * 10 + d;
        proof {
            assert forall|k: int| 0 <= k < upto.len() implies is_digit(#[trigger] upto[k]) by {
                if k < upto.len() - 1 {
                    assert(body.take(i - start)[k] == upto[k]);
                }
            }
        }
        i = i + 1;
    }
    proof {
        assert(body.take(i - start) =~= body);
    }
    Some(value)
}

/// The fields of `s`.
pub fn split_fields(s: &Vec<u8>) -> (r: Vec<Vec<u8>>)
    ensures
        views(r@) == fields(s@),
        r.len() >= 1,
{
    let mut done: Vec<Vec<u8>> = Vec::new();
    let mut current: Vec<u8> = Vec::new();
    let mut i: usize = 0;
    proof {
        assert(s@.take(0) =~= Seq::<u8>::empty());
        assert(views(done@).push(current@) =~= fields(s@.take(0)));
    }
    while i < s.len()
        invariant
            0 <= i <= s.len(),
            views(done@).push(current@) == fields(s@.take(i as int)),
        decreases s.len() - i,
    {
        let b = s[i];
        let ghost upto = s@.take(i + 1);
        let ghost before = fields(s@.take(i as int));
        proof {
            assert(upto.drop_last() =~= s@.take(i as int));
            assert(upto.last() == b);
            assert(before.last() == current@);
            assert(before.drop_last() =~= views(done@));
        }
        if b == SPACE {
            done.push(current);
            current = Vec::new();
            proof {
                assert(views(done@) =~= before);
                assert(views(done@).push(current@) =~= fields(upto));
            }
        } else {
            current.push(b);
            proof {
                assert(views(done@).push(current@) =~= fields(upto));
            }
        }
        i = i + 1;
    }
    proof {
        assert(s@.take(s.len() as int) =~= s@);
    }
    let ghost d1 = done@;
    let ghost c1 = current@;
    done.push(current);
    proof {
        assert(views(done@) =~= views(d1).push(c1));
    }
    done
}

/// The fields `ts[from..to]` with a space between each two of them.
pub fn join_fields(ts: &Vec<Vec<u8>>, from: usize, to: usize) -> (r: Vec<u8>)
    requires
        from <= to <= ts.len(),
    ensures
        r@ == joined(views(ts@).subrange(from as int, to as int)),
{
    let mut out: Vec<u8> = Vec::new();
    let mut i: usize = from;
    let ghost all = views(ts@);
    proof {
        assert(all.subrange(from as int, from as int) =~= Seq::<Seq<u8>>::empty());
    }
    while i < to
        invariant
            from <= i <= to,
            to <= ts.len(),
            all == views(ts@),
            out@ == joined(all.subrange(from as int, i as int)),
        decreases to - i,
    {
        let ghost sofar = all.subrange(from as int, i as int);
        let ghost next = all.subrange(from as int, i + 1);
        proof {
            assert(next.drop_last() =~= sofar);
            assert(next.last() == ts@[i as int]@);
        }
        if i > from {
            out.push(SPACE);
        }
        push_all(&mut out, &ts[i]);
        proof {
            if i > from {
                assert(out@ =~= joined(sofar) + seq![SPACE] + ts@[i as int]@);
            } else {
                assert(out@ =~= ts@[i as int]@);
                assert(next[0] == ts@[i as int]@);
            }
        }
        i = i + 1;
    }
    out
}

/// `s` with `with` in the place of each space.
pub fn replace_spaces(s: &Vec<u8>, with: &Vec<u8>) -> (r: Vec<u8>)
    ensures
        r@ == respaced(s@, with@),
{
    let mut out: Vec<u8> = Vec::new();
    let mut i: usize = 0;
    proof {
        assert(s@.take(0) =~= Seq::<u8>::empty());
    }
    while i < s.len()
        invariant
            0 <= i <= s.len(),
            out@ == respaced(s@.take(i as int), with@),
        decreases s.len() - i,
    {
        let ghost upto = s@.take(i + 1);
        proof {
            assert(upto.drop_last() =~= s@.take(i as int));
            assert(upto.last() == s@[i as int]);
        }
        if s[i] == SPACE {
            push_all(&mut out, with);
        } else {
            out.push(s[i]);
        }
        i = i + 1;
    }
    proof {
        assert(s@.take(s.len() as int) =~= s@);
    }
    out
}

/// Whether two byte strings are the same.
pub fn same_bytes(a: &Vec<u8>, b: &Vec<u8>) -> (r: bool)
    ensures
        r == (a@ == b@),
{
    if a.len() != b.len() {
        return false;
    }
    let mut i: usize = 0;
    while i < a.len()
        invariant
            0 <= i <= a.len(),
            a.len() == b.len(),
            forall|k: int| 0 <= k < i ==> a@[k] == b@[k],
        decreases a.len() - i,
    {
        if a[i] != b[i] {
            return false;
        }
        i = i + 1;
    }
    proof {
        assert(a@ =~= b@);
    }
    true
}

/// A copy of `s`.
pub fn copy_bytes(s: &Vec<u8>) -> (r: Vec<u8>)
    ensures
        r@ == s@,
{
    let mut out: Vec<u8> = Vec::new();
    push_all(&mut out, s);
    out
}

} // verus!
