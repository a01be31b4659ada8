//! Packets that the machine sends to itself.

use vstd::prelude::*;

use super::netlink::Cidr;

verus! {

/// The sum of the pairs of bytes from a place on; a last byte alone is the high one.
pub open spec fn word_sum(data: Seq<u8>, i: int) -> int
    decreases data.len() - i,
{
    if i < 0 || i >= data.len() {
        0
    } else if i + 1 < data.len() {
        data[i] * 256 + data[i + 1] + word_sum(data, i + 2)
    } else {
        data[i] * 256
    }
}

/// A number with what does not fit into two bytes added to the rest.
pub open spec fn folded(n: int) -> int
    decreases n,
{
    if n < 0x1_0000 {
        n
    } else {
        folded(n % 0x1_0000 + n / 0x1_0000)
    }
}

/// The check number of bytes from a place on.
pub open spec fn checksum(data: Seq<u8>, at: int) -> int {
    0xffff - folded(word_sum(data, at) % 0x1_0000_0000)
}

/// The sum of pairs is not larger than that many pairs can have.
proof fn lemma_word_sum_bound(data: Seq<u8>, i: int)
    requires
        0 <= i,
    ensures
        0 <= word_sum(data, i) <= 0xffff * (if data.len() > i {
            data.len() - i
        } else {
            0
        }),
    decreases data.len() + 2 - i,
{
    if i < data.len() {
        lemma_word_sum_bound(data, i + 2);
    }
}

/// Folding keeps the rest of a division, and something stays something.
proof fn lemma_folded(n: int)
    requires
        n >= 0,
    ensures
        0 <= folded(n) <= 0xffff,
        folded(n) % 0xffff == n % 0xffff,
        n > 0 ==> folded(n) > 0,
    decreases n,
{
    if n >= 0x1_0000 {
        let m = n % 0x1_0000 + n / 0x1_0000;
        lemma_folded(m);
        let h = n / 0x1_0000;
        let l = n % 0x1_0000;
        assert(n == h * 0x1_0000 + l);
        assert(n == h * 0xffff + m);
        assert((h * 0xffff + m) % 0xffff == m % 0xffff) by {
            vstd::arithmetic::div_mod::lemma_mod_multiples_vanish(h, m, 0xffff);
        }
    }
}

/// Returns the check number of bytes from a place on.
pub fn packet_checksum(data: &Vec<u8>, at: usize) -> (sum: u16)
    requires
        at <= data@.len(),
    ensures
        sum == checksum(data@, at as int),
{
    let mut sum: u32 = 0;
    let mut i: usize = at;
    let n: usize = data.len();
    proof {
        lemma_word_sum_bound(data@, at as int);
    }
    while i < n
        invariant
            at <= i,
            n == data@.len(),
            (sum + word_sum(data@, i as int)) % 0x1_0000_0000 == word_sum(data@, at as int)
                % 0x1_0000_0000,
            word_sum(data@, i as int) >= 0,
            i <= n || word_sum(data@, i as int) == 0,
        decreases n + 2 - i,
    {
        proof {
            lemma_word_sum_bound(data@, i + 2);
        }
        let word: u32 = if i + 1 < n {
            data[i] as u32 * 256 + data[i + 1] as u32
        } else {
            data[i] as u32 * 256
        };
        let ghost s0 = sum as int;
        let ghost rest = if i + 1 < n {
            word_sum(data@, i + 2)
        } else {
            0
        };
        sum = sum.wrapping_add(word);
        proof {
            assert(word_sum(data@, i as int) == word + rest);
            assert(sum == s0 + word || sum == s0 + word - 0x1_0000_0000);
        }
        if n - i <= 2 {
            i = n;
        } else {
            i = i + 2;
        }
    }
    assert(sum as int == word_sum(data@, at as int) % 0x1_0000_0000);
    let mut value: u32 = sum;
    while value >= 0x1_0000
        invariant
            folded(value as int) == folded(sum as int),
        decreases value,
    {
        value = value % 0x1_0000 + value / 0x1_0000;
    }
    0xffff - value as u16
}

/// A packet with the two addresses swapped.
pub open spec fn swapped(data: Seq<u8>) -> Seq<u8> {
    Seq::new(
        data.len(),
        |i: int|
            if 12 <= i < 16 {
                data[i + 4]
            } else if 16 <= i < 20 {
                data[i - 4]
            } else {
                data[i]
            },
    )
}

/// The length of the header of a packet.
pub open spec fn header_len(data: Seq<u8>) -> int {
    (data[0] as int % 16) * 4
}

/// A request to send a packet back.
pub open spec fn is_echo_request(data: Seq<u8>) -> bool {
    data[9] == 1 && data.len() >= header_len(data) + 8 && data[header_len(data)] == 8
}

/// The answer before its check number is set.
pub open spec fn reply_without_sum(data: Seq<u8>) -> Seq<u8> {
    let h = header_len(data);
    swapped(data).update(h, 0).update(h + 2, 0).update(h + 3, 0)
}

/// The answer to a request to send a packet back.
pub open spec fn echo_reply(data: Seq<u8>) -> Seq<u8> {
    let h = header_len(data);
    let blank = reply_without_sum(data);
    let sum = checksum(blank, h);
    blank.update(h + 2, (sum / 256) as u8).update(h + 3, (sum % 256) as u8)
}

/// The packet goes to an address of the machine.
pub open spec fn goes_to_self(data: Seq<u8>, addrs: Seq<Cidr>) -> bool {
    data.len() >= 20 && exists|i: int|
        0 <= i < addrs.len() && (#[trigger] addrs[i]).a == data[16] && addrs[i].b == data[17]
            && addrs[i].c == data[18] && addrs[i].d == data[19]
}

/// Tells whether a packet goes to an address of the machine.
fn is_local(data: &Vec<u8>, addrs: &Vec<Cidr>) -> (yes: bool)
    ensures
        yes == goes_to_self(data@, addrs@),
{
    if data.len() < 20 {
        return false;
    }
    let mut i: usize = 0;
    while i < addrs.len()
        invariant
            data@.len() >= 20,
            i <= addrs@.len(),
            forall|j: int|
                0 <= j < i ==> !((#[trigger] addrs@[j]).a == data@[16] && addrs@[j].b == data@[17]
                    && addrs@[j].c == data@[18] && addrs@[j].d == data@[19]),
        decreases addrs@.len() - i,
    {
        let addr = addrs[i];
        if addr.a == data[16] && addr.b == data[17] && addr.c == data[18] && addr.d == data[19] {
            assert(addrs@[i as int] == addr);
            return true;
        }
        i = i + 1;
    }
    false
}

/// Returns what the machine gets when it sends a packet to itself: a request to send it back
/// is answered, and other packets arrive as they are. A packet to elsewhere is not looked at.
pub fn local_delivery(data: Vec<u8>, addrs: &Vec<Cidr>) -> (packet: Option<Vec<u8>>)
    ensures
        match packet {
            None => !goes_to_self(data@, addrs@),
            Some(p) => goes_to_self(data@, addrs@) && p@ == if is_echo_request(data@) {
                echo_reply(data@)
            } else {
                data@
            },
        },
{
    if !is_local(&data, addrs) {
        return None;
    }
    let mut out = data;
    let ghost d = out@;
    let len: usize = out.len();
    if out[9] == 1 {
        let h: usize = (out[0] % 16) as usize * 4;
        if len >= h + 8 && out[h] == 8 {
            let mut i: usize = 0;
            while i < 4
                invariant
                    i <= 4,
                    d.len() >= 20,
                    out@.len() == d.len(),
                    forall|j: int|
                        0 <= j < d.len() ==> #[trigger] out@[j] == if 12 <= j < 12 + i {
                            d[j + 4]
                        } else if 16 <= j < 16 + i {
                            d[j - 4]
                        } else {
                            d[j]
                        },
                decreases 4 - i,
            {
                let a: u8 = out[12 + i];
                let b: u8 = out[16 + i];
                out[12 + i] = b;
                out[16 + i] = a;
                i = i + 1;
            }
            assert(out@ =~= swapped(d));
            out[h] = 0;
            out[h + 2] = 0;
            out[h + 3] = 0;
            assert(out@ =~= reply_without_sum(d));
            let sum: u16 = packet_checksum(&out, h);
            out[h + 2] = (sum / 256) as u8;
            out[h + 3] = (sum % 256) as u8;
            assert(out@ =~= echo_reply(d));
        }
    }
    Some(out)
}

/// A pair of bytes that was zero and is not adds what it is to the sum.
proof fn lemma_word_replaced(blank: Seq<u8>, full: Seq<u8>, at: int, place: int)
    requires
        0 <= at <= place,
        (place - at) % 2 == 0,
        place + 1 < blank.len(),
        full.len() == blank.len(),
        blank[place] == 0,
        blank[place + 1] == 0,
        forall|i: int|
            at <= i < blank.len() && i != place && i != place + 1 ==> #[trigger] full[i] == blank[i],
    ensures
        word_sum(full, at) == word_sum(blank, at) + full[place] * 256 + full[place + 1],
    decreases place - at,
{
    if at < place {
        assert(full[at] == blank[at] && full[at + 1] == blank[at + 1]);
        lemma_word_replaced(blank, full, at + 2, place);
    } else {
        lemma_same_sum(blank, full, at + 2);
    }
}

/// The same bytes have the same sum.
proof fn lemma_same_sum(a: Seq<u8>, b: Seq<u8>, at: int)
    requires
        0 <= at,
        a.len() == b.len(),
        forall|i: int| at <= i < a.len() ==> #[trigger] a[i] == b[i],
    ensures
        word_sum(a, at) == word_sum(b, at),
    decreases a.len() - at,
{
    if at < a.len() {
        assert(a[at] == b[at]);
        if at + 1 < a.len() {
            assert(a[at + 1] == b[at + 1]);
            lemma_same_sum(a, b, at + 2);
        }
    }
}

/// The check number of an answer is right: where the sum of the pairs fits into four bytes,
/// as it does in every packet of less than 128 KiB, the sum with the check number folds to
/// ones alone.
pub proof fn law_reply_checks(data: Seq<u8>)
    requires
        20 <= data.len(),
        is_echo_request(data),
        word_sum(reply_without_sum(data), header_len(data)) < 0x1_0000_0000,
    ensures
        folded(word_sum(echo_reply(data), header_len(data))) == 0xffff,
{
    let h = header_len(data);
    let blank = reply_without_sum(data);
    let full = echo_reply(data);
    let s = word_sum(blank, h);
    lemma_word_sum_bound(blank, h);
    let f = folded(s);
    lemma_folded(s);
    let c = 0xffff - f;
    assert(checksum(blank, h) == c);
    lemma_word_replaced(blank, full, h, h + 2);
    let total = s + c;
    assert(word_sum(full, h) == total);
    lemma_folded(total);
    assert(total % 0xffff == 0) by {
        assert((s - f) % 0xffff == 0) by {
            vstd::arithmetic::div_mod::lemma_fundamental_div_mod(s, 0xffff);
            vstd::arithmetic::div_mod::lemma_fundamental_div_mod(f, 0xffff);
            let k = s / 0xffff - f / 0xffff;
            assert(s - f == 0xffff * k);
            vstd::arithmetic::div_mod::lemma_mod_multiples_basic(k, 0xffff);
        }
        let k = (s - f) / 0xffff;
        assert(total == 0xffff * (k + 1));
        vstd::arithmetic::div_mod::lemma_mod_multiples_basic(k + 1, 0xffff);
    }
    let r = folded(total);
    assert(r == 0xffff) by {
        assert(0 < r <= 0xffff && r % 0xffff == 0);
    }
}

} // verus!
