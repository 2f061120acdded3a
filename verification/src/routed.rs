//! What the cluster asks of a key: a stable textual form to route by.
//!
//! A key's bytes are its standard textual rendering encoded as UTF-8 —
//! strings render as themselves, integers in decimal — so equal abstract
//! values always land on the same shard.
use vstd::prelude::*;
use vstd::string::StrSliceExecFns;

use crate::cache_key::CacheKey;

verus! {

/// The decimal digits of `n`, most significant first, as ASCII bytes.
pub open spec fn dec_digits(n: nat) -> Seq<u8>
    decreases n,
{
    if n < 10 {
        seq![(48 + n) as u8]
    } else {
        dec_digits((n / 10) as nat).push((48 + n % 10) as u8)
    }
}

/// The decimal rendering of an integer, with a leading minus sign when
/// negative.
pub open spec fn dec_int(n: int) -> Seq<u8> {
    if n < 0 {
        seq![45u8] + dec_digits((-n) as nat)
    } else {
        dec_digits(n as nat)
    }
}

/// A key the cluster can route: its textual form, as UTF-8 bytes, is a
/// function of its abstract value alone.
pub trait RoutedKey: CacheKey {
    /// The textual form of an abstract key value, as UTF-8 bytes.
    spec fn route_of(v: <Self as View>::V) -> Seq<u8>;

    /// Renders the key's textual form.
    fn render_bytes(&self) -> (r: Vec<u8>)
        ensures
            r@ == Self::route_of(self@),
    ;
}

impl RoutedKey for String {
    open spec fn route_of(v: Seq<char>) -> Seq<u8> {
        vstd::utf8::encode_utf8(v)
    }

    fn render_bytes(&self) -> (r: Vec<u8>) {
        self.as_str().as_bytes_vec()
    }
}

/// The decimal ASCII rendering of `n`.
pub fn u64_dec_bytes(n: u64) -> (r: Vec<u8>)
    ensures
        r@ == dec_digits(n as nat),
{
    let mut tmp: Vec<u8> = Vec::new();
    let ghost mut suf: Seq<u8> = Seq::empty();
    let mut x = n;
    if x < 10 {
        let mut out: Vec<u8> = Vec::new();
        out.push(48 + (x as u8));
        proof {
            assert(out@ =~= dec_digits(n as nat));
        }
        return out;
    }
    while x > 0
        invariant
            x > 0 ==> dec_digits(n as nat) == dec_digits(x as nat) + suf,
            x == 0 ==> dec_digits(n as nat) == suf,
            tmp@.len() == suf.len(),
            forall|t: int| 0 <= t < tmp@.len() ==> (#[trigger] tmp@[t]) == suf[suf.len() - 1 - t],
        decreases x,
    {
        let d: u8 = 48 + ((x % 10) as u8);
        let ghost suf0 = suf;
        proof {
            assert(d == (48 + (x as nat) % 10) as u8);
            suf = seq![d] + suf;
            if x >= 10 {
                assert(dec_digits(x as nat) == dec_digits(((x as nat) / 10) as nat).push(d));
                assert(dec_digits((x / 10) as nat) + suf =~= (dec_digits((x as nat) / 10).push(d))
                    + suf0);
                assert(dec_digits(n as nat) == dec_digits((x / 10) as nat) + suf);
            } else {
                assert(dec_digits(x as nat) =~= seq![d]);
                assert(dec_digits(n as nat) =~= suf);
            }
        }
        tmp.push(d);
        x = x / 10;
    }
    let mut out: Vec<u8> = Vec::new();
    let mut k = tmp.len();
    while k > 0
        invariant
            k <= tmp@.len(),
            tmp@.len() == suf.len(),
            forall|t: int| 0 <= t < tmp@.len() ==> (#[trigger] tmp@[t]) == suf[suf.len() - 1 - t],
            out@.len() == tmp@.len() - k,
            forall|t: int| 0 <= t < out@.len() ==> (#[trigger] out@[t]) == suf[t],
        decreases k,
    {
        let b = tmp[k - 1];
        out.push(b);
        k = k - 1;
    }
    proof {
        assert(out@ =~= suf);
    }
    out
}

impl RoutedKey for u64 {
    open spec fn route_of(v: u64) -> Seq<u8> {
        dec_digits(v as nat)
    }

    fn render_bytes(&self) -> (r: Vec<u8>) {
        u64_dec_bytes(*self)
    }
}

impl RoutedKey for i32 {
    open spec fn route_of(v: i32) -> Seq<u8> {
        dec_int(v as int)
    }

    fn render_bytes(&self) -> (r: Vec<u8>) {
        if *self < 0 {
            let m: u64 = (-(*self as i64)) as u64;
            proof {
                assert(m as nat == (-(*self as int)) as nat);
            }
            let mut out: Vec<u8> = Vec::new();
            out.push(45u8);
            let mut digits = u64_dec_bytes(m);
            let ghost dv = digits@;
            out.append(&mut digits);
            proof {
                assert(out@ =~= seq![45u8] + dv);
            }
            out
        } else {
            u64_dec_bytes(*self as u64)
        }
    }
}

} // verus!
