//! What holds of address text and of CIDR blocks for every input.
use vstd::prelude::*;
use vstd::arithmetic::power2::*;
use crate::decimal::{
    all_digits, decimal, digit_char, digit_value, digits_value, is_digit, parse_unsigned,
    unsigned_text_value,
};
use crate::ipv4::{
    bit_set, block_text, cidr_blocks, highest_set_bit, ipv4_text, octet_text, parse_ipv4, split_dots,
    lemma_blocks_step, lemma_mod_pow2_succ, lemma_split_dots_nonempty,
};
use vstd::arithmetic::div_mod::{
    lemma_basic_div, lemma_breakdown, lemma_div_denominator, lemma_div_multiples_vanish,
    lemma_fundamental_div_mod, lemma_fundamental_div_mod_converse, lemma_mod_add_multiples_vanish,
    lemma_mod_mod, lemma_mod_multiples_basic,
};
use vstd::arithmetic::mul::lemma_mul_is_associative;

verus! {

// ---------------------------------------------------------------------------
// Decimal text
// ---------------------------------------------------------------------------

proof fn lemma_digit_char(d: nat)
    requires
        d < 10,
    ensures
        is_digit(digit_char(d)),
        digit_value(digit_char(d)) == d,
        d >= 1 ==> digit_char(d) != '0',
{
}

proof fn lemma_char_digit(c: char)
    requires
        is_digit(c),
    ensures
        digit_value(c) < 10,
        digit_char(digit_value(c)) == c,
{
}

/// The decimal text of a number is all digits, with no leading zero, and
/// reads back as the number.
proof fn lemma_decimal(n: nat)
    ensures
        decimal(n).len() >= 1,
        all_digits(decimal(n)),
        n >= 1 ==> decimal(n)[0] != '0',
        digits_value(decimal(n)) == n,
        n < 10 ==> decimal(n).len() == 1,
        10 <= n < 100 ==> decimal(n).len() == 2,
        100 <= n < 1000 ==> decimal(n).len() == 3,
    decreases n,
{
    if n < 10 {
        lemma_digit_char(n);
        assert(decimal(n).drop_last() =~= Seq::<char>::empty());
        assert(digits_value(Seq::<char>::empty()) == 0);
        assert(decimal(n).last() == digit_char(n));
        assert(digits_value(decimal(n)) == digits_value(decimal(n).drop_last()) * 10 + digit_value(
            decimal(n).last(),
        ));
    } else {
        lemma_decimal(n / 10);
        lemma_digit_char(n % 10);
        let d = decimal(n / 10);
        assert(decimal(n) == d.push(digit_char(n % 10)));
        assert(d.push(digit_char(n % 10)).drop_last() =~= d);
        assert(d.push(digit_char(n % 10))[0] == d[0]);
        assert(digits_value(decimal(n)) == digits_value(d) * 10 + digit_value(digit_char(n % 10)));
        assert forall|i: int| 0 <= i < decimal(n).len() implies is_digit(#[trigger] decimal(n)[i]) by {
            if i < d.len() {
                assert(decimal(n)[i] == d[i]);
            }
        }
    }
}

/// Digits without a leading zero have a value of at least one.
proof fn lemma_leading_digit_positive(t: Seq<char>)
    requires
        t.len() >= 1,
        all_digits(t),
        t[0] != '0',
    ensures
        digits_value(t) >= 1,
    decreases t.len(),
{
    if t.len() > 1 {
        assert(t.drop_last()[0] == t[0]);
        assert(all_digits(t.drop_last())) by {
            assert forall|i: int| 0 <= i < t.drop_last().len() implies is_digit(
                #[trigger] t.drop_last()[i],
            ) by {
                assert(t.drop_last()[i] == t[i]);
            }
        }
        lemma_leading_digit_positive(t.drop_last());
    } else {
        assert(t.last() == t[0]);
        assert(t.drop_last().len() == 0);
    }
}

/// Digits without a leading zero are the decimal text of their value.
proof fn lemma_digits_canonical(t: Seq<char>)
    requires
        t.len() >= 1,
        all_digits(t),
        t.len() > 1 ==> t[0] != '0',
    ensures
        decimal(digits_value(t)) == t,
    decreases t.len(),
{
    let c = t.last();
    assert(is_digit(t[t.len() - 1]));
    lemma_char_digit(c);
    if t.len() == 1 {
        assert(t.drop_last() =~= Seq::<char>::empty());
        assert(digits_value(Seq::<char>::empty()) == 0);
        assert(digits_value(t) == digits_value(t.drop_last()) * 10 + digit_value(c));
        assert(digits_value(t) == digit_value(c));
        assert(decimal(digits_value(t)) =~= t);
    } else {
        let u = t.drop_last();
        assert(u[0] == t[0]);
        assert(all_digits(u)) by {
            assert forall|i: int| 0 <= i < u.len() implies is_digit(#[trigger] u[i]) by {
                assert(u[i] == t[i]);
            }
        }
        lemma_digits_canonical(u);
        lemma_leading_digit_positive(u);
        let v = digits_value(t);
        assert(v == digits_value(u) * 10 + digit_value(c));
        assert(v / 10 == digits_value(u));
        assert(v % 10 == digit_value(c));
        assert(decimal(v) == decimal(v / 10).push(digit_char(v % 10)));
        assert(decimal(v) =~= t);
    }
}

/// The decimal text of a number reads back as the number, with or without a
/// leading `+`, wherever the number fits.
pub proof fn decimal_reads_back(n: nat, max: nat)
    requires
        n <= max,
    ensures
        parse_unsigned(decimal(n), max) == Some(n),
        parse_unsigned(seq!['+'] + decimal(n), max) == Some(n),
{
    lemma_decimal(n);
    let d = decimal(n);
    assert(is_digit(d[0]));
    assert(unsigned_text_value(d) == Some(n));
    let e = seq!['+'] + d;
    assert(e[0] == '+');
    assert(e.drop_first() =~= d);
    assert(unsigned_text_value(e) == Some(n));
}

// ---------------------------------------------------------------------------
// Splitting at dots
// ---------------------------------------------------------------------------

/// Text without a dot extends the last piece.
proof fn lemma_split_dots_append_piece(s: Seq<char>, t: Seq<char>)
    requires
        forall|i: int| 0 <= i < t.len() ==> #[trigger] t[i] != '.',
    ensures
        split_dots(s + t) == split_dots(s).update(
            split_dots(s).len() - 1,
            split_dots(s).last() + t,
        ),
        split_dots(s + t).len() == split_dots(s).len(),
    decreases t.len(),
{
    lemma_split_dots_nonempty(s);
    if t.len() == 0 {
        assert(s + t =~= s);
        assert(split_dots(s).last() + t =~= split_dots(s).last());
        assert(split_dots(s).update(split_dots(s).len() - 1, split_dots(s).last())
            =~= split_dots(s));
    } else {
        let u = t.drop_last();
        assert forall|i: int| 0 <= i < u.len() implies #[trigger] u[i] != '.' by {
            assert(u[i] == t[i]);
        }
        lemma_split_dots_append_piece(s, u);
        assert((s + t).drop_last() =~= s + u);
        assert((s + t).last() == t.last());
        assert(t[t.len() - 1] != '.');
        lemma_split_dots_nonempty(s + u);
        assert((split_dots(s).last() + u).push(t.last()) =~= split_dots(s).last() + t);
        assert(split_dots(s + t) =~= split_dots(s).update(
            split_dots(s).len() - 1,
            split_dots(s).last() + t,
        ));
    }
}

proof fn lemma_no_dot_in_decimal(n: nat)
    ensures
        forall|i: int| 0 <= i < decimal(n).len() ==> #[trigger] decimal(n)[i] != '.',
{
    lemma_decimal(n);
    assert forall|i: int| 0 <= i < decimal(n).len() implies #[trigger] decimal(n)[i] != '.' by {
        assert(is_digit(decimal(n)[i]));
    }
}

/// The pieces of `a.b.c.d`, for texts `a`, `b`, `c`, `d` without dots.
proof fn lemma_split_four(a: Seq<char>, b: Seq<char>, c: Seq<char>, d: Seq<char>)
    requires
        forall|i: int| 0 <= i < a.len() ==> #[trigger] a[i] != '.',
        forall|i: int| 0 <= i < b.len() ==> #[trigger] b[i] != '.',
        forall|i: int| 0 <= i < c.len() ==> #[trigger] c[i] != '.',
        forall|i: int| 0 <= i < d.len() ==> #[trigger] d[i] != '.',
    ensures
        split_dots(a + seq!['.'] + b + seq!['.'] + c + seq!['.'] + d) == seq![a, b, c, d],
{
    let e = Seq::<char>::empty();
    assert(split_dots(e) == seq![e]);
    lemma_split_dots_append_piece(e, a);
    assert(e + a =~= a);
    assert(split_dots(a) =~= seq![a]);
    let s1 = a + seq!['.'];
    assert(s1.drop_last() =~= a);
    assert(split_dots(s1) =~= seq![a, e]);
    lemma_split_dots_append_piece(s1, b);
    assert(e + b =~= b);
    assert(split_dots(s1 + b) =~= seq![a, b]);
    let s2 = s1 + b + seq!['.'];
    assert(s2.drop_last() =~= s1 + b);
    assert(split_dots(s2) =~= seq![a, b, e]);
    lemma_split_dots_append_piece(s2, c);
    assert(e + c =~= c);
    assert(split_dots(s2 + c) =~= seq![a, b, c]);
    let s3 = s2 + c + seq!['.'];
    assert(s3.drop_last() =~= s2 + c);
    assert(split_dots(s3) =~= seq![a, b, c, e]);
    lemma_split_dots_append_piece(s3, d);
    assert(e + d =~= d);
    assert(split_dots(s3 + d) =~= seq![a, b, c, d]);
    assert(s3 + d =~= a + seq!['.'] + b + seq!['.'] + c + seq!['.'] + d);
}

/// Joining pieces back together with dots between them.
pub open spec fn join_dots(parts: Seq<Seq<char>>) -> Seq<char>
    decreases parts.len(),
{
    if parts.len() <= 1 {
        if parts.len() == 0 {
            Seq::<char>::empty()
        } else {
            parts[0]
        }
    } else {
        join_dots(parts.drop_last()) + seq!['.'] + parts.last()
    }
}

/// Splitting at the dots and joining with dots gives the text back.
proof fn lemma_join_split(s: Seq<char>)
    ensures
        join_dots(split_dots(s)) == s,
    decreases s.len(),
{
    if s.len() > 0 {
        let u = s.drop_last();
        lemma_join_split(u);
        lemma_split_dots_nonempty(u);
        let p = split_dots(u);
        if s.last() == '.' {
            let q = p.push(Seq::<char>::empty());
            assert(q.drop_last() =~= p);
            assert(join_dots(q) =~= u + seq!['.']);
            assert(s =~= u + seq!['.']);
        } else {
            let q = p.update(p.len() - 1, p.last().push(s.last()));
            assert(s =~= u.push(s.last()));
            if p.len() == 1 {
                assert(join_dots(q) =~= s);
            } else {
                assert(q.drop_last() =~= p.drop_last());
                assert(join_dots(q) =~= join_dots(p.drop_last()) + seq!['.'] + p.last().push(
                    s.last(),
                ));
                assert(join_dots(q) =~= s);
            }
        }
    } else {
        assert(split_dots(s) =~= seq![Seq::<char>::empty()]);
    }
}

// ---------------------------------------------------------------------------
// Laws of address text
// ---------------------------------------------------------------------------

/// Reading back the text of an address gives the address.
pub proof fn ipv4_text_parses_back(x: u32)
    ensures
        parse_ipv4(ipv4_text(x)) == Some(x),
{
    let a = x as nat / 16777216;
    let b = (x as nat / 65536) % 256;
    let c = (x as nat / 256) % 256;
    let d = x as nat % 256;
    assert(a < 256) by {
        assert(x as nat / 16777216 < 256);
    }
    lemma_no_dot_in_decimal(a);
    lemma_no_dot_in_decimal(b);
    lemma_no_dot_in_decimal(c);
    lemma_no_dot_in_decimal(d);
    lemma_split_four(decimal(a), decimal(b), decimal(c), decimal(d));
    lemma_decimal(a);
    lemma_decimal(b);
    lemma_decimal(c);
    lemma_decimal(d);
    assert(octet_text(decimal(a)));
    assert(octet_text(decimal(b)));
    assert(octet_text(decimal(c)));
    assert(octet_text(decimal(d)));
    assert((x / 16777216) * 16777216 + ((x / 65536) % 256) * 65536 + ((x / 256) % 256) * 256 + x
        % 256 == x) by (bit_vector);
}

/// An address text is the text of the address that it writes: the text
/// that an address has is unique.
pub proof fn ipv4_text_is_canonical(s: Seq<char>)
    requires
        parse_ipv4(s) is Some,
    ensures
        ipv4_text(parse_ipv4(s).unwrap()) == s,
{
    let p = split_dots(s);
    lemma_join_split(s);
    let p1 = p.drop_last().drop_last().drop_last();
    let p2 = p.drop_last().drop_last();
    let p3 = p.drop_last();
    assert(p1 =~= seq![p[0]]);
    assert(join_dots(p1) == p[0]);
    assert(p2.drop_last() == p1);
    assert(p2.last() == p[1]);
    assert(join_dots(p2) == p[0] + seq!['.'] + p[1]);
    assert(p3.drop_last() == p2);
    assert(p3.last() == p[2]);
    assert(join_dots(p3) == p[0] + seq!['.'] + p[1] + seq!['.'] + p[2]);
    assert(p.last() == p[3]);
    assert(s == p[0] + seq!['.'] + p[1] + seq!['.'] + p[2] + seq!['.'] + p[3]);
    lemma_digits_canonical(p[0]);
    lemma_digits_canonical(p[1]);
    lemma_digits_canonical(p[2]);
    lemma_digits_canonical(p[3]);
    let a = digits_value(p[0]);
    let b = digits_value(p[1]);
    let c = digits_value(p[2]);
    let d = digits_value(p[3]);
    let x = parse_ipv4(s).unwrap();
    assert(x == (a * 16777216 + b * 65536 + c * 256 + d) as u32);
    let (a32, b32, c32, d32) = (a as u32, b as u32, c as u32, d as u32);
    assert(a32 < 256 && b32 < 256 && c32 < 256 && d32 < 256);
    assert({
        let v = a32 * 16777216 + b32 * 65536 + c32 * 256 + d32;
        &&& v / 16777216 == a32
        &&& (v / 65536) % 256 == b32
        &&& (v / 256) % 256 == c32
        &&& v % 256 == d32
    }) by (bit_vector)
        requires
            a32 < 256 && b32 < 256 && c32 < 256 && d32 < 256,
    ;
    assert(ipv4_text(x) =~= s);
}

/// The text of a block says which block it is: a single address is written
/// as its address text alone; a block of `2^p` addresses (`p >= 1`) is
/// written as the text of its first address, `/`, and a prefix length that
/// reads back as `32 - p`.
pub proof fn block_text_reads_back(start: nat, p: nat)
    requires
        start < 0x1_0000_0000,
        p < 32,
    ensures
        p == 0 ==> parse_ipv4(block_text(start, p)) == Some(start as u32),
        p >= 1 ==> exists|i: int|
            0 <= i < block_text(start, p).len() && block_text(start, p)[i] == '/' && parse_ipv4(
                block_text(start, p).take(i),
            ) == Some(start as u32) && parse_unsigned(block_text(start, p).skip(i + 1), 32) == Some(
                (32 - p) as nat,
            ),
{
    ipv4_text_parses_back(start as u32);
    assert(start as u32 as nat == start);
    if p >= 1 {
        let a = ipv4_text(start as u32);
        let t = block_text(start, p);
        let i = a.len() as int;
        decimal_reads_back((32 - p) as nat, 32);
        assert(t.take(i) =~= a);
        assert(t.skip(i + 1) =~= decimal((32 - p) as nat));
        assert(t[i] == '/');
    }
}

// ---------------------------------------------------------------------------
// Laws of CIDR blocks
// ---------------------------------------------------------------------------

/// The exponents of the blocks for `count % 2^k` addresses: below `k`,
/// strictly decreasing, exactly the set bits of `count` below `k`.
proof fn lemma_blocks_exponents(start: nat, count: u32, k: nat)
    ensures
        ({
            let b = cidr_blocks(start, count, k);
            &&& forall|i: int| 0 <= i < b.len() ==> #[trigger] b[i].1 < k
            &&& forall|i: int, j: int| 0 <= i < j < b.len() ==> #[trigger] b[i].1 > #[trigger] b[j].1
            &&& forall|q: nat|
                q < k ==> (bit_set(count, q) <==> exists|i: int|
                    0 <= i < b.len() && #[trigger] b[i].1 == q)
        }),
    decreases k,
{
    let b = cidr_blocks(start, count, k);
    if k > 0 {
        let p = (k - 1) as nat;
        if bit_set(count, p) {
            let s2 = start + pow2(p);
            lemma_blocks_exponents(s2, count, p);
            let r = cidr_blocks(s2, count, p);
            assert(b == seq![(start, p)] + r);
            assert(b[0] == (start, p));
            assert forall|i: int| 0 < i < b.len() implies b[i] == r[i - 1] by {}
            assert forall|i: int| 0 <= i < b.len() implies #[trigger] b[i].1 < k by {
                if i > 0 {
                    assert(b[i] == r[i - 1]);
                }
            }
            assert forall|i: int, j: int| 0 <= i < j < b.len() implies #[trigger] b[i].1
                > #[trigger] b[j].1 by {
                assert(b[j] == r[j - 1]);
                if i > 0 {
                    assert(b[i] == r[i - 1]);
                }
            }
            assert forall|q: nat| q < k implies (bit_set(count, q) <==> exists|i: int|
                0 <= i < b.len() && #[trigger] b[i].1 == q) by {
                if q == p {
                    assert(b[0].1 == q);
                } else {
                    if bit_set(count, q) {
                        let i = choose|i: int| 0 <= i < r.len() && #[trigger] r[i].1 == q;
                        assert(b[i + 1] == r[i]);
                    }
                    if exists|i: int| 0 <= i < b.len() && #[trigger] b[i].1 == q {
                        let i = choose|i: int| 0 <= i < b.len() && #[trigger] b[i].1 == q;
                        assert(i != 0);
                        assert(b[i] == r[i - 1]);
                    }
                }
            }
        } else {
            lemma_blocks_exponents(start, count, p);
            assert(b == cidr_blocks(start, count, p));
            assert forall|q: nat| q < k implies (bit_set(count, q) <==> exists|i: int|
                0 <= i < b.len() && #[trigger] b[i].1 == q) by {
                if q == p {
                    if exists|i: int| 0 <= i < b.len() && #[trigger] b[i].1 == q {
                        let i = choose|i: int| 0 <= i < b.len() && #[trigger] b[i].1 == q;
                        assert(b[i].1 < p);
                    }
                }
            }
        }
    }
}

proof fn lemma_sum_rearranged(e: nat, s2: nat, cp: nat, start: nat, x: nat, ck: nat)
    requires
        e == s2 + cp,
        s2 == start + x,
        ck == x + cp,
    ensures
        e == start + ck,
{
}

/// The blocks for `count % 2^k` addresses from `start` follow one another
/// from `start` to `start + count % 2^k`.
proof fn lemma_blocks_chain(start: nat, count: u32, k: nat)
    ensures
        ({
            let b = cidr_blocks(start, count, k);
            &&& b.len() > 0 ==> b[0].0 == start
            &&& forall|i: int|
                0 <= i < b.len() - 1 ==> #[trigger] b[i + 1].0 == b[i].0 + pow2(b[i].1)
            &&& b.len() > 0 ==> b.last().0 + pow2(b.last().1) == start + (count as nat) % pow2(k)
            &&& b.len() == 0 ==> (count as nat) % pow2(k) == 0
        }),
    decreases k,
{
    let b = cidr_blocks(start, count, k);
    if k == 0 {
        assert(pow2(0) == 1) by {
            lemma2_to64();
        }
    } else {
        let p = (k - 1) as nat;
        lemma_mod_pow2_succ(count, p);
        assert(pow2(p + 1) == pow2(k));
        let cp: nat = (count as nat) % pow2(p);
        let ck: nat = (count as nat) % pow2(k);
        if bit_set(count, p) {
            assert(ck == pow2(p) + cp);
            let s2 = start + pow2(p);
            lemma_blocks_chain(s2, count, p);
            let r = cidr_blocks(s2, count, p);
            assert(b == seq![(start, p)] + r);
            assert(b[0] == (start, p));
            assert forall|i: int| 0 <= i < b.len() - 1 implies #[trigger] b[i + 1].0 == b[i].0
                + pow2(b[i].1) by {
                assert(b[i + 1] == r[i]);
                if i > 0 {
                    assert(b[i] == r[i - 1]);
                    assert(r[(i - 1) + 1].0 == r[i - 1].0 + pow2(r[i - 1].1));
                } else {
                    assert(r[0].0 == s2);
                }
            }
            if r.len() > 0 {
                assert(b.last() == r.last());
                let e: nat = r.last().0 + pow2(r.last().1);
                lemma_sum_rearranged(e, s2, cp, start, pow2(p), ck);
            } else {
                assert(b.last() == (start, p));
                assert(cp == 0);
            }
        } else {
            assert(!bit_set(count, p));
            assert((count as nat) % pow2(p + 1) == (count as nat) % pow2(p)) by {
                lemma_mod_pow2_succ(count, p);
            }
            assert(k == p + 1);
            assert(ck == cp);
            lemma_blocks_chain(start, count, p);
            assert(b == cidr_blocks(start, count, p));
        }
    }
}

/// The blocks for `count` addresses from `start` tile the range
/// `[start, start + count)` exactly: the first starts at `start`, each one
/// starts where the one before it ends, the last ends at `start + count`;
/// their sizes are powers of two that strictly decrease, one for each set
/// bit of `count`; there are none only when `count` is zero.
pub proof fn cidr_blocks_tile_range(start: nat, count: u32)
    ensures
        ({
            let b = cidr_blocks(start, count, 32);
            &&& b.len() == 0 <==> count == 0
            &&& b.len() > 0 ==> b[0].0 == start
            &&& forall|i: int|
                0 <= i < b.len() - 1 ==> #[trigger] b[i + 1].0 == b[i].0 + pow2(b[i].1)
            &&& b.len() > 0 ==> b.last().0 + pow2(b.last().1) == start + count
            &&& forall|i: int, j: int| 0 <= i < j < b.len() ==> #[trigger] b[i].1 > #[trigger] b[j].1
            &&& forall|i: int| 0 <= i < b.len() ==> #[trigger] b[i].1 < 32
            &&& forall|q: nat|
                q < 32 ==> (bit_set(count, q) <==> exists|i: int|
                    0 <= i < b.len() && #[trigger] b[i].1 == q)
        }),
{
    lemma_blocks_exponents(start, count, 32);
    lemma_blocks_chain(start, count, 32);
    assert(pow2(32) == 0x1_0000_0000) by {
        lemma2_to64();
    }
    assert((count as nat) % pow2(32) == count);
    let b = cidr_blocks(start, count, 32);
    if b.len() > 0 {
        lemma_pow2_pos(b.last().1);
        if count == 0 {
            let q = b[0].1;
            assert(q < 32);
            assert(exists|i: int| 0 <= i < b.len() && #[trigger] b[i].1 == q);
            lemma_pow2_pos(q);
            assert(bit_set(count, q));
        }
    }
}

proof fn lemma_highest_set_bit(n: u32, pos: nat)
    ensures
        highest_set_bit(n, pos) matches Some(h) ==> h <= pos && bit_set(n, h),
    decreases pos,
{
    if !bit_set(n, pos) && pos > 0 {
        lemma_highest_set_bit(n, (pos - 1) as nat);
    }
}

/// `highest_set_bit(n, pos)` is the highest set bit of `n` at `pos` or
/// below: it is set, and no bit above it up to `pos` is; `None` means that
/// no bit from 0 to `pos` is set.
pub proof fn highest_set_bit_is_highest(n: u32, pos: nat)
    ensures
        highest_set_bit(n, pos) matches Some(h) ==> h <= pos && bit_set(n, h) && forall|q: nat|
            h < q <= pos ==> !#[trigger] bit_set(n, q),
        highest_set_bit(n, pos) is None ==> forall|q: nat| q <= pos ==> !#[trigger] bit_set(n, q),
    decreases pos,
{
    lemma_highest_set_bit(n, pos);
    if !bit_set(n, pos) && pos > 0 {
        highest_set_bit_is_highest(n, (pos - 1) as nat);
    }
}

/// A multiple of `2^m` is a multiple of `2^q` for `q <= m`.
proof fn lemma_pow2_multiple(x: nat, q: nat, m: nat)
    requires
        q <= m,
        x % pow2(m) == 0,
    ensures
        x % pow2(q) == 0,
{
    lemma_pow2_pos(q);
    lemma_pow2_pos((m - q) as nat);
    lemma_pow2_adds(q, (m - q) as nat);
    assert(q + (m - q) as nat == m);
    lemma_mod_mod(x as int, pow2(q) as int, pow2((m - q) as nat) as int);
}

/// Blocks whose sizes are at most `2^m`, from a start that is a multiple
/// of `2^m`, each start at a multiple of their size.
proof fn lemma_blocks_aligned(start: nat, count: u32, k: nat, m: nat)
    requires
        k <= m + 1,
        start % pow2(m) == 0,
    ensures
        forall|i: int|
            0 <= i < cidr_blocks(start, count, k).len() ==> (#[trigger] cidr_blocks(
                start,
                count,
                k,
            )[i]).0 % pow2(cidr_blocks(start, count, k)[i].1) == 0,
    decreases k,
{
    let b = cidr_blocks(start, count, k);
    if k > 0 {
        let p = (k - 1) as nat;
        if bit_set(count, p) {
            let s2 = start + pow2(p);
            lemma_pow2_multiple(start, p, m);
            lemma_pow2_pos(p);
            lemma_mod_add_multiples_vanish(start as int, pow2(p) as int);
            assert(s2 % pow2(p) == 0);
            lemma_blocks_aligned(s2, count, p, p);
            let r = cidr_blocks(s2, count, p);
            assert(b == seq![(start, p)] + r);
            assert forall|i: int| 0 <= i < b.len() implies (#[trigger] b[i]).0 % pow2(b[i].1)
                == 0 by {
                if i > 0 {
                    assert(b[i] == r[i - 1]);
                }
            }
        } else {
            lemma_blocks_aligned(start, count, p, m);
            assert(b == cidr_blocks(start, count, p));
        }
    }
}

/// When the first address is a multiple of the size of the largest block,
/// every block is a proper CIDR block: its first address is a multiple of
/// its size.
pub proof fn cidr_blocks_aligned(start: nat, count: u32)
    requires
        highest_set_bit(count, 31) matches Some(h) ==> start % pow2(h) == 0,
    ensures
        forall|i: int|
            0 <= i < cidr_blocks(start, count, 32).len() ==> (#[trigger] cidr_blocks(
                start,
                count,
                32,
            )[i]).0 % pow2(cidr_blocks(start, count, 32)[i].1) == 0,
{
    lemma_blocks_step(start, count, 31);
    match highest_set_bit(count, 31) {
        Some(h) => {
            lemma_highest_set_bit(count, 31);
            lemma_blocks_aligned(start, count, h + 1, h);
            lemma_blocks_step(start, count, h);
            assert(highest_set_bit(count, h) == Some(h));
            assert(cidr_blocks(start, count, 32) == cidr_blocks(start, count, h + 1));
        },
        None => {},
    }
}

// ---------------------------------------------------------------------------
// Splitting a count at a bit
// ---------------------------------------------------------------------------

/// The bits of `x mod 2^k`: those of `x` below `k`, none from `k` up.
proof fn lemma_low_part_bits(x: u32, lo: u32, k: nat, p: nat)
    requires
        lo as nat == (x as nat) % pow2(k),
    ensures
        p < k ==> (bit_set(lo, p) == bit_set(x, p)),
        p >= k ==> !bit_set(lo, p),
{
    lemma_pow2_pos(p);
    lemma_pow2_pos(k);
    if p < k {
        let y = pow2(p) as int;
        let z = pow2((k - p) as nat) as int;
        lemma_pow2_adds(p, (k - p) as nat);
        assert(p + (k - p) as nat == k);
        lemma_pow2_pos((k - p) as nat);
        lemma_breakdown(x as int, y, z);
        let a = ((x as int) / y) % z;
        let b = (x as int) % y;
        assert(lo as int == y * a + b);
        lemma_fundamental_div_mod_converse(lo as int, y, a, b);
        lemma_pow2_unfold((k - p) as nat);
        lemma_pow2_pos((k - p - 1) as nat);
        lemma_mod_mod((x as int) / y, 2, pow2((k - p - 1) as nat) as int);
        assert(2 * pow2((k - p - 1) as nat) == z);
    } else {
        if p > k {
            lemma_pow2_strictly_increases(k, p);
        }
        lemma_basic_div(lo as int, pow2(p) as int);
    }
}

/// The bits of `x - x mod 2^k`: those of `x` from `k` up, none below `k`.
proof fn lemma_high_part_bits(x: u32, hi: u32, k: nat, p: nat)
    requires
        hi as nat == x as nat - (x as nat) % pow2(k),
    ensures
        p >= k ==> (bit_set(hi, p) == bit_set(x, p)),
        p < k ==> !bit_set(hi, p),
{
    lemma_pow2_pos(p);
    lemma_pow2_pos(k);
    let d = pow2(k) as int;
    let q = (x as int) / d;
    lemma_fundamental_div_mod(x as int, d);
    assert(hi as int == d * q);
    if p >= k {
        let e = pow2((p - k) as nat) as int;
        lemma_pow2_pos((p - k) as nat);
        lemma_pow2_adds(k, (p - k) as nat);
        assert(k + (p - k) as nat == p);
        lemma_div_multiples_vanish(q, d);
        lemma_div_denominator(hi as int, d, e);
        lemma_div_denominator(x as int, d, e);
    } else {
        let e = pow2((k - p) as nat) as int;
        let y = pow2(p) as int;
        lemma_pow2_pos((k - p) as nat);
        lemma_pow2_adds(p, (k - p) as nat);
        assert(p + (k - p) as nat == k);
        lemma_mul_is_associative(y, e, q);
        lemma_div_multiples_vanish(e * q, y);
        assert((hi as int) / y == e * q);
        lemma_pow2_unfold((k - p) as nat);
        let f = pow2((k - p - 1) as nat) as int;
        assert(e == 2 * f);
        lemma_mul_is_associative(2, f, q);
        assert(e * q == (f * q) * 2);
        lemma_mod_multiples_basic(f * q, 2);
    }
}

/// Counts that agree on the bits below `j` have the same blocks below `j`.
proof fn lemma_blocks_same_bits(s: nat, c1: u32, c2: u32, j: nat)
    requires
        forall|p: nat| p < j ==> bit_set(c1, p) == bit_set(c2, p),
    ensures
        cidr_blocks(s, c1, j) == cidr_blocks(s, c2, j),
    decreases j,
{
    if j > 0 {
        let p = (j - 1) as nat;
        assert(bit_set(c1, p) == bit_set(c2, p));
        lemma_blocks_same_bits(s, c1, c2, p);
        lemma_blocks_same_bits(s + pow2(p), c1, c2, p);
    }
}

/// A count with no set bit below `j` has no blocks below `j`.
proof fn lemma_blocks_none(s: nat, c: u32, j: nat)
    requires
        forall|p: nat| p < j ==> !bit_set(c, p),
    ensures
        cidr_blocks(s, c, j) == Seq::<(nat, nat)>::empty(),
    decreases j,
{
    if j > 0 {
        let p = (j - 1) as nat;
        assert(!bit_set(c, p));
        lemma_blocks_none(s, c, p);
    }
}

/// A count with no set bit from `k` up has the same blocks below any `j >= k`.
proof fn lemma_blocks_no_high_bits(s: nat, c: u32, k: nat, j: nat)
    requires
        k <= j,
        forall|p: nat| k <= p ==> !bit_set(c, p),
    ensures
        cidr_blocks(s, c, j) == cidr_blocks(s, c, k),
    decreases j,
{
    if j > k {
        let p = (j - 1) as nat;
        assert(!bit_set(c, p));
        lemma_blocks_no_high_bits(s, c, k, p);
    }
}

proof fn lemma_shift_start(s: nat, x: nat, a: nat, b: nat)
    requires
        b == x + a,
    ensures
        s + b == (s + x) + a,
{
}

/// Below `j >= k`, the blocks of `count` are those of its high part and
/// then those of its low part, from where the high part's blocks end.
proof fn lemma_blocks_split_below(s: nat, count: u32, hi: u32, lo: u32, k: nat, j: nat)
    requires
        k <= j,
        lo as nat == (count as nat) % pow2(k),
        hi as nat == count as nat - (count as nat) % pow2(k),
    ensures
        cidr_blocks(s, count, j) == cidr_blocks(s, hi, j) + cidr_blocks(
            s + (hi as nat) % pow2(j),
            lo,
            k,
        ),
    decreases j,
{
    if j == k {
        assert forall|p: nat| p < k implies bit_set(count, p) == bit_set(lo, p) by {
            lemma_low_part_bits(count, lo, k, p);
        }
        lemma_blocks_same_bits(s, count, lo, k);
        assert forall|p: nat| p < k implies !bit_set(hi, p) by {
            lemma_high_part_bits(count, hi, k, p);
        }
        lemma_blocks_none(s, hi, k);
        lemma_pow2_pos(k);
        lemma_fundamental_div_mod(count as int, pow2(k) as int);
        let q = (count as int) / (pow2(k) as int);
        vstd::arithmetic::mul::lemma_mul_is_commutative(pow2(k) as int, q);
        assert(hi as int == q * (pow2(k) as int));
        lemma_mod_multiples_basic(q, pow2(k) as int);
        assert((hi as nat) % pow2(k) == 0);
        assert(cidr_blocks(s, hi, j) + cidr_blocks(s, lo, k) =~= cidr_blocks(s, lo, k));
    } else {
        let p = (j - 1) as nat;
        lemma_high_part_bits(count, hi, k, p);
        lemma_mod_pow2_succ(hi, p);
        assert(p + 1 == j);
        if bit_set(count, p) {
            let s2 = s + pow2(p);
            lemma_blocks_split_below(s2, count, hi, lo, k, p);
            let t = cidr_blocks(s2 + (hi as nat) % pow2(p), lo, k);
            assert(pow2(p + 1) == pow2(j));
            assert((hi as nat) % pow2(p + 1) == pow2(p) + (hi as nat) % pow2(p));
            assert((hi as nat) % pow2(j) == pow2(p) + (hi as nat) % pow2(p));
            lemma_shift_start(s, pow2(p), (hi as nat) % pow2(p), (hi as nat) % pow2(j));
            assert(cidr_blocks(s, count, j) =~= seq![(s, p)] + cidr_blocks(s2, hi, p) + t);
        } else {
            lemma_blocks_split_below(s, count, hi, lo, k, p);
            assert(pow2(p + 1) == pow2(j));
            assert((hi as nat) % pow2(j) == (hi as nat) % pow2(p));
        }
    }
}

/// Splitting the count at bit `k` splits the blocks: the blocks of `count`
/// addresses from `start` are the blocks of its high part (`count` with the
/// bits below `k` cleared) from `start`, followed by the blocks of its low
/// part (`count mod 2^k`) from the address where the high part ends.
pub proof fn cidr_blocks_split(start: nat, count: u32, k: nat)
    requires
        k <= 32,
    ensures
        ({
            let lo = ((count as nat) % pow2(k)) as u32;
            let hi = (count - lo) as u32;
            cidr_blocks(start, count, 32) == cidr_blocks(start, hi, 32) + cidr_blocks(
                start + hi as nat,
                lo,
                32,
            )
        }),
{
    lemma_pow2_pos(k);
    let lo = ((count as nat) % pow2(k)) as u32;
    let hi = (count - lo) as u32;
    assert((count as nat) % pow2(k) <= count) by {
        lemma_fundamental_div_mod(count as int, pow2(k) as int);
        assert((count as int) / (pow2(k) as int) >= 0) by {
            vstd::arithmetic::div_mod::lemma_div_pos_is_pos(count as int, pow2(k) as int);
        }
        vstd::arithmetic::mul::lemma_mul_nonnegative(pow2(k) as int, (count as int) / (pow2(k) as int));
    }
    assert(lo as nat == (count as nat) % pow2(k));
    assert(hi as nat == count as nat - (count as nat) % pow2(k));
    lemma_blocks_split_below(start, count, hi, lo, k, 32);
    assert(pow2(32) == 0x1_0000_0000) by {
        lemma2_to64();
    }
    assert((hi as nat) % pow2(32) == hi);
    assert forall|p: nat| k <= p implies !bit_set(lo, p) by {
        lemma_low_part_bits(count, lo, k, p);
    }
    lemma_blocks_no_high_bits(start + hi as nat, lo, k, 32);
}

} // verus!
