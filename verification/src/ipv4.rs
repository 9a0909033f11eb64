//! IPv4 addresses in dotted-quad text, and the CIDR blocks that cover a
//! range of addresses.
use vstd::prelude::*;
use vstd::arithmetic::power2::*;
use vstd::arithmetic::div_mod::lemma_mod_breakdown;
use vstd::bits::{lemma_u32_shl_is_mul, lemma_u32_shr_is_div, lemma_u32_pow2_no_overflow};
use crate::decimal::{all_digits, decimal, digits_value, is_digit, push_decimal};

verus! {

// ---------------------------------------------------------------------------
// Dotted-quad text
// ---------------------------------------------------------------------------

/// The pieces of `s` between the dots, in order (`n` dots give `n + 1` pieces).
pub open spec fn split_dots(s: Seq<char>) -> Seq<Seq<char>>
    decreases s.len(),
{
    if s.len() == 0 {
        seq![Seq::<char>::empty()]
    } else {
        let parts = split_dots(s.drop_last());
        if s.last() == '.' {
            parts.push(Seq::<char>::empty())
        } else {
            parts.update(parts.len() - 1, parts.last().push(s.last()))
        }
    }
}

/// A piece that may still grow into an octet: at most three digits, and no
/// leading zero before another digit.
pub open spec fn octet_prefix(t: Seq<char>) -> bool {
    &&& t.len() <= 3
    &&& all_digits(t)
    &&& t.len() > 1 ==> t[0] != '0'
}

/// The text of one octet: one to three digits, no leading zero, value at most 255.
pub open spec fn octet_text(t: Seq<char>) -> bool {
    &&& 1 <= t.len()
    &&& octet_prefix(t)
    &&& digits_value(t) <= 255
}

/// The address that `s` writes in dotted-quad notation (`a.b.c.d`, each
/// octet in decimal without leading zeros), or `None` when `s` is no such text.
pub open spec fn parse_ipv4(s: Seq<char>) -> Option<u32> {
    let p = split_dots(s);
    if p.len() == 4 && octet_text(p[0]) && octet_text(p[1]) && octet_text(p[2]) && octet_text(
        p[3],
    ) {
        Some(
            (digits_value(p[0]) * 16777216 + digits_value(p[1]) * 65536 + digits_value(p[2]) * 256
                + digits_value(p[3])) as u32,
        )
    } else {
        None
    }
}

/// The number of an address text, `0` when the text is not an address.
pub open spec fn ipv4_value(s: Seq<char>) -> u32 {
    match parse_ipv4(s) {
        Some(v) => v,
        None => 0,
    }
}

/// The dotted-quad text of an address.
pub open spec fn ipv4_text(x: u32) -> Seq<char> {
    decimal(x as nat / 16777216) + seq!['.'] + decimal((x as nat / 65536) % 256) + seq!['.']
        + decimal((x as nat / 256) % 256) + seq!['.'] + decimal(x as nat % 256)
}

/// The value of the pieces taken as base-256 digits.
pub open spec fn octets_value(parts: Seq<Seq<char>>) -> nat
    decreases parts.len(),
{
    if parts.len() == 0 {
        0
    } else {
        octets_value(parts.drop_last()) * 256 + digits_value(parts.last())
    }
}

pub proof fn lemma_split_dots_nonempty(s: Seq<char>)
    ensures
        split_dots(s).len() >= 1,
    decreases s.len(),
{
    if s.len() > 0 {
        lemma_split_dots_nonempty(s.drop_last());
    }
}

/// The number of an address text, `0` when `ipv4_addr` is not a dotted-quad
/// address.
pub fn ipv4_2_u32(ipv4_addr: &str) -> (r: u32)
    ensures
        r == ipv4_value(ipv4_addr@),
{
    let n = ipv4_addr.unicode_len();
    let ghost s = ipv4_addr@;
    // pieces finished so far
    let mut count: usize = 0;
    let mut done_ok = true;
    let mut acc: u32 = 0;
    // the piece being read
    let mut tok_ok = true;
    let mut tok_len: usize = 0;
    let mut tok_val: u32 = 0;
    let mut tok_lead_zero = false;
    let mut i: usize = 0;
    proof {
        assert(s.take(0) =~= Seq::<char>::empty());
        assert(split_dots(s.take(0)) =~= seq![Seq::<char>::empty()]);
    }
    while i < n
        invariant
            n == s.len(),
            s == ipv4_addr@,
            i <= n,
            count <= i,
            tok_len <= i,
            split_dots(s.take(i as int)).len() == count + 1,
            tok_len == split_dots(s.take(i as int)).last().len(),
            tok_ok == octet_prefix(split_dots(s.take(i as int)).last()),
            tok_ok ==> tok_val == digits_value(split_dots(s.take(i as int)).last()),
            tok_ok ==> tok_val < (if tok_len == 0 {
                1int
            } else if tok_len == 1 {
                10int
            } else if tok_len == 2 {
                100int
            } else {
                1000int
            }),
            tok_lead_zero == (tok_len >= 1 && split_dots(s.take(i as int)).last()[0] == '0'),
            done_ok == (count <= 3 && forall|j: int|
                0 <= j < count ==> octet_text(#[trigger] split_dots(s.take(i as int))[j])),
            done_ok ==> acc == octets_value(split_dots(s.take(i as int)).take(count as int)),
            done_ok ==> acc < (if count == 0 {
                1int
            } else if count == 1 {
                256int
            } else if count == 2 {
                65536int
            } else {
                16777216int
            }),
        decreases n - i,
    {
        let c = ipv4_addr.get_char(i);
        let ghost pre = s.take(i as int);
        let ghost p = split_dots(pre);
        let ghost post = s.take(i + 1);
        proof {
            assert(post.drop_last() =~= pre);
            assert(post.last() == c);
            lemma_split_dots_nonempty(pre);
        }
        if c == '.' {
            let ghost q = split_dots(post);
            assert(q == p.push(Seq::<char>::empty()));
            let piece_ok = tok_ok && tok_len >= 1 && tok_val <= 255;
            assert(piece_ok == octet_text(p.last()));
            if done_ok && piece_ok && count < 3 {
                proof {
                    assert(q.take(count + 1).drop_last() =~= p.take(count as int));
                    assert(q.take(count + 1).last() == p.last());
                }
                acc = acc * 256 + tok_val;
            }
            proof {
                assert forall|j: int| 0 <= j < count implies q[j] == p[j] by {}
                if done_ok && piece_ok && count < 3 {
                    assert forall|j: int| 0 <= j < count + 1 implies octet_text(#[trigger] q[j]) by {
                        if j < count {
                            assert(q[j] == p[j]);
                        } else {
                            assert(q[j] == p.last());
                        }
                    }
                } else if count < 3 && done_ok {
                    assert(q[count as int] == p.last());
                }
            }
            done_ok = done_ok && piece_ok && count < 3;
            count = count + 1;
            tok_ok = true;
            tok_len = 0;
            tok_val = 0;
            tok_lead_zero = false;
            proof {
                assert(all_digits(q.last()));
            }
        } else {
            let ghost q = split_dots(post);
            let ghost t = p.last();
            assert(q == p.update(p.len() - 1, t.push(c)));
            assert(q.last() == t.push(c));
            let is_d = '0' <= c && c <= '9';
            let new_ok = tok_ok && is_d && tok_len < 3 && !tok_lead_zero;
            proof {
                if new_ok {
                    assert forall|k: int| 0 <= k < t.push(c).len() implies is_digit(
                        #[trigger] t.push(c)[k],
                    ) by {
                        if k < t.len() {
                            assert(t.push(c)[k] == t[k]);
                        }
                    }
                    assert(t.push(c).drop_last() =~= t);
                } else if tok_ok && is_d && tok_len < 3 {
                    assert(t.push(c)[0] == t[0]);
                } else if !is_d {
                    assert(t.push(c)[t.len() as int] == c);
                } else if tok_ok && is_d && tok_len >= 3 {
                } else {
                    // the piece was already no prefix of an octet
                    if all_digits(t.push(c)) && t.push(c).len() <= 3 {
                        assert forall|k: int| 0 <= k < t.len() implies is_digit(#[trigger] t[k]) by {
                            assert(t.push(c)[k] == t[k]);
                        }
                        if t.len() > 1 {
                            assert(t.push(c)[0] == t[0]);
                        }
                    }
                }
                assert forall|j: int| 0 <= j < count implies q[j] == p[j] by {}
                assert(q.take(count as int) =~= p.take(count as int));
            }
            if new_ok {
                tok_val = tok_val * 10 + (c as u32 - '0' as u32);
            }
            if tok_len == 0 {
                tok_lead_zero = c == '0';
            }
            tok_ok = new_ok;
            tok_len = tok_len + 1;
            proof {
                if tok_len >= 2 {
                    assert(t.push(c)[0] == t[0]);
                }
            }
        }
        i = i + 1;
    }
    proof {
        assert(s.take(n as int) =~= s);
    }
    let ghost p = split_dots(s);
    if done_ok && count == 3 && tok_ok && tok_len >= 1 && tok_val <= 255 {
        proof {
            assert(p.take(3).drop_last() =~= p.take(2));
            assert(p.take(2).drop_last() =~= p.take(1));
            assert(p.take(1).drop_last() =~= p.take(0));
            assert(octet_text(p[0]) && octet_text(p[1]) && octet_text(p[2]));
            assert(p.take(3).last() == p[2]);
            assert(p.take(2).last() == p[1]);
            assert(p.take(1).last() == p[0]);
            assert(p.take(0).len() == 0);
            assert(octets_value(p.take(0)) == 0);
            assert(octets_value(p.take(1)) == digits_value(p[0]));
            assert(octets_value(p.take(2)) == digits_value(p[0]) * 256 + digits_value(p[1]));
            assert(octets_value(p.take(3)) == (digits_value(p[0]) * 256 + digits_value(p[1])) * 256
                + digits_value(p[2]));
            assert(p.last() == p[3]);
            assert(acc * 256 + tok_val == digits_value(p[0]) * 16777216 + digits_value(p[1]) * 65536
                + digits_value(p[2]) * 256 + digits_value(p[3]));
        }
        acc * 256 + tok_val
    } else {
        proof {
            if p.len() == 4 && done_ok && count == 3 {
                assert(!octet_text(p[3]));
            } else if p.len() == 4 && count == 3 && octet_text(p[0]) && octet_text(p[1]) && octet_text(p[2]) {
                assert(done_ok);
            } else if p.len() == 4 {
                assert(!(octet_text(p[0]) && octet_text(p[1]) && octet_text(p[2])));
            }
        }
        0
    }
}

/// The dotted-quad text of an address, each octet in decimal.
pub fn u32_2_ipv4_str(ipv4_addr: u32) -> (r: String)
    ensures
        r@ == ipv4_text(ipv4_addr),
{
    let mut out = String::new();
    proof {
        reveal_strlit(".");
    }
    push_decimal(&mut out, (ipv4_addr / 16777216) as u64);
    out.append(".");
    push_decimal(&mut out, ((ipv4_addr / 65536) % 256) as u64);
    out.append(".");
    push_decimal(&mut out, ((ipv4_addr / 256) % 256) as u64);
    out.append(".");
    push_decimal(&mut out, (ipv4_addr % 256) as u64);
    assert(out@ =~= ipv4_text(ipv4_addr));
    out
}

// ---------------------------------------------------------------------------
// Ranges of addresses as CIDR blocks
// ---------------------------------------------------------------------------

/// Bit `p` of `n` (bit 0 is the least significant).
pub open spec fn bit_set(n: u32, p: nat) -> bool {
    (n as nat / pow2(p)) % 2 == 1
}

/// The highest set bit of `n` at position `pos` or below, if any.
pub open spec fn highest_set_bit(n: u32, pos: nat) -> Option<nat>
    decreases pos,
{
    if bit_set(n, pos) {
        Some(pos)
    } else if pos == 0 {
        None
    } else {
        highest_set_bit(n, (pos - 1) as nat)
    }
}

/// The blocks, as pairs of first address and size exponent, that cover
/// `count % 2^k` addresses from `start`: one block of `2^p` addresses for
/// each set bit `p < k` of `count`, largest first, each one starting where
/// the one before it ends.
pub open spec fn cidr_blocks(start: nat, count: u32, k: nat) -> Seq<(nat, nat)>
    decreases k,
{
    if k == 0 {
        seq![]
    } else {
        let p = (k - 1) as nat;
        if bit_set(count, p) {
            seq![(start, p)] + cidr_blocks(start + pow2(p), count, p)
        } else {
            cidr_blocks(start, count, p)
        }
    }
}

/// The blocks that cover `count` addresses from the address that `addr` writes.
pub open spec fn range_blocks(addr: Seq<char>, count: u32) -> Seq<(nat, nat)> {
    cidr_blocks(ipv4_value(addr) as nat, count, 32)
}

/// The text of a block of `2^p` addresses from `start`: `a.b.c.d/len` with
/// prefix length `32 - p`, or the bare address for a single address.
pub open spec fn block_text(start: nat, p: nat) -> Seq<char> {
    if p == 0 {
        ipv4_text(start as u32)
    } else {
        ipv4_text(start as u32) + seq!['/'] + decimal((32 - p) as nat)
    }
}

/// Bit `shift` of `x` as a shift and a mask computes it.
proof fn lemma_shr_and_one(x: u32, shift: u32)
    requires
        shift < 32,
    ensures
        (0x1u32 & (x >> shift) == 0x1u32) == bit_set(x, shift as nat),
{
    lemma_u32_shr_is_div(x, shift);
    let y = x >> shift;
    assert(0x1u32 & y == y % 2) by (bit_vector);
}

/// `n mod 2^(k+1)` is `n mod 2^k` plus `2^k` when bit `k` is set.
pub proof fn lemma_mod_pow2_succ(n: u32, k: nat)
    ensures
        bit_set(n, k) ==> (n as nat) % pow2(k + 1) == pow2(k) + (n as nat) % pow2(k),
        !bit_set(n, k) ==> (n as nat) % pow2(k + 1) == (n as nat) % pow2(k),
{
    lemma_pow2_unfold(k + 1);
    lemma_pow2_pos(k);
    lemma_mod_breakdown(n as int, pow2(k) as int, 2);
    assert(pow2(k) * 2 == pow2(k + 1));
    if bit_set(n, k) {
        assert(pow2(k) * ((n as nat / pow2(k)) % 2) == pow2(k));
    } else {
        assert((n as nat / pow2(k)) % 2 == 0);
        assert(pow2(k) * ((n as nat / pow2(k)) % 2) == 0);
    }
}

/// Jumping to the highest set bit skips exactly the blocks of the clear bits above it.
pub proof fn lemma_blocks_step(start: nat, count: u32, cur: nat)
    ensures
        match highest_set_bit(count, cur) {
            None => cidr_blocks(start, count, cur + 1) == Seq::<(nat, nat)>::empty() && (count as nat)
                % pow2(cur + 1) == 0,
            Some(p) => p <= cur && cidr_blocks(start, count, cur + 1) == seq![(start, p)]
                + cidr_blocks(start + pow2(p), count, p) && (count as nat) % pow2(cur + 1) == pow2(p)
                + (count as nat) % pow2(p),
        },
    decreases cur,
{
    lemma_mod_pow2_succ(count, cur);
    if bit_set(count, cur) {
    } else if cur == 0 {
        assert(pow2(0) == 1) by {
            lemma2_to64();
        }
        assert(cidr_blocks(start, count, 0) == Seq::<(nat, nat)>::empty());
    } else {
        lemma_blocks_step(start, count, (cur - 1) as nat);
    }
}

/// The highest set bit of `num` at position `cur_pos` or below; `None` when
/// bits `0..=cur_pos` are all clear.
pub fn find_next_one_pos(num: u32, cur_pos: u8) -> (r: Option<u8>)
    requires
        cur_pos < 32,
    ensures
        match r {
            Some(p) => highest_set_bit(num, cur_pos as nat) == Some(p as nat),
            None => highest_set_bit(num, cur_pos as nat) is None,
        },
{
    let mut i: u8 = cur_pos;
    loop
        invariant
            i <= cur_pos < 32,
            highest_set_bit(num, cur_pos as nat) == highest_set_bit(num, i as nat),
        decreases i,
    {
        proof {
            lemma_shr_and_one(num, i as u32);
        }
        if 0x1 == (0x1 & (num >> (i as u32))) {
            return Some(i);
        }
        if i == 0 {
            return None;
        }
        i = i - 1;
    }
}

/// The CIDR blocks that cover `count` addresses from `ipv4_addr`, as text:
/// one block for each set bit of `count`, largest first, each block of
/// `2^p` addresses written `a.b.c.d/(32 - p)`, a single address written
/// bare. A text that is not an address counts as `0.0.0.0`.
pub fn ipv4_count_2_mask_represents(ipv4_addr: &str, count: u32) -> (r: Box<Vec<String>>)
    requires
        ipv4_value(ipv4_addr@) + count <= u32::MAX,
    ensures
        r@.len() == range_blocks(ipv4_addr@, count).len(),
        forall|i: int|
            0 <= i < r@.len() ==> (#[trigger] r@[i])@ == block_text(
                range_blocks(ipv4_addr@, count)[i].0,
                range_blocks(ipv4_addr@, count)[i].1,
            ),
{
    let mut result: Vec<String> = Vec::new();
    let mut cur_one_pos: u8 = 31;
    let mut ipv4_prefix = ipv4_2_u32(ipv4_addr);
    let ghost blocks = range_blocks(ipv4_addr@, count);
    let ghost base = ipv4_prefix as nat;
    let ghost mut done: Seq<(nat, nat)> = seq![];
    proof {
        assert(pow2(32) == 0x1_0000_0000) by {
            lemma2_to64();
        }
        assert(blocks =~= done + cidr_blocks(ipv4_prefix as nat, count, (cur_one_pos + 1) as nat));
    }
    loop
        invariant
            cur_one_pos < 32,
            base + count <= u32::MAX,
            ipv4_prefix as nat + (count as nat) % pow2((cur_one_pos + 1) as nat) == base + count,
            blocks == done + cidr_blocks(ipv4_prefix as nat, count, (cur_one_pos + 1) as nat),
            blocks == range_blocks(ipv4_addr@, count),
            result@.len() == done.len(),
            forall|i: int|
                0 <= i < done.len() ==> (#[trigger] result@[i])@ == block_text(done[i].0, done[i].1),
        decreases cur_one_pos,
    {
        proof {
            lemma_blocks_step(ipv4_prefix as nat, count, cur_one_pos as nat);
        }
        match find_next_one_pos(count, cur_one_pos) {
            Some(one_pos) => {
                proof {
                    reveal_strlit("/");
                }
                let mut text = u32_2_ipv4_str(ipv4_prefix);
                if one_pos >= 1 {
                    text.append("/");
                    push_decimal(&mut text, (32 - one_pos) as u64);
                }
                assert(text@ =~= block_text(ipv4_prefix as nat, one_pos as nat));
                result.push(text);
                proof {
                    lemma_u32_pow2_no_overflow(one_pos as nat);
                    lemma_u32_shl_is_mul(1, one_pos as u32);
                    done = done.push((ipv4_prefix as nat, one_pos as nat));
                    assert(blocks =~= done + cidr_blocks(
                        ipv4_prefix as nat + pow2(one_pos as nat),
                        count,
                        one_pos as nat,
                    ));
                }
                ipv4_prefix = ipv4_prefix + (1u32 << (one_pos as u32));
                if one_pos < 1 {
                    proof {
                        assert(cidr_blocks(ipv4_prefix as nat, count, 0) == Seq::<(nat, nat)>::empty());
                        assert(pow2(0) == 1) by {
                            lemma2_to64();
                        }
                        assert(blocks =~= done);
                    }
                    return Box::new(result);
                }
                cur_one_pos = one_pos - 1;
            },
            None => {
                assert(blocks =~= done);
                return Box::new(result);
            },
        }
    }
}

} // verus!
