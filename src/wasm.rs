//! A cursor over the bytes of a WebAssembly module.

use vstd::prelude::*;
use vstd::utf8::{decode_utf8, valid_utf8};

verus! {

/// The input is not a well-formed WebAssembly byte sequence.
#[derive(Debug, Clone, Copy, PartialEq, Eq, Structural)]
pub struct WasmFormatError;

pub open spec fn pow128(k: nat) -> nat
    decreases k,
{
    if k == 0 {
        1
    } else {
        128 * pow128((k - 1) as nat)
    }
}

/// Sum of the low seven bits of the first `n` bytes of `s`, least significant first.
pub open spec fn leb_sum(s: Seq<u8>, n: nat) -> nat
    recommends
        n <= s.len(),
    decreases n,
{
    if n == 0 {
        0
    } else {
        leb_sum(s, (n - 1) as nat) + (s[n - 1] % 128) as nat * pow128((n - 1) as nat)
    }
}

/// Index of the first byte among `s[i..5]` without its continuation bit, if any.
pub open spec fn leb_stop(s: Seq<u8>, i: nat) -> Option<nat>
    decreases 5 - i,
{
    if i >= 5 || i >= s.len() {
        None
    } else if s[i as int] < 128 {
        Some(i)
    } else {
        leb_stop(s, i + 1)
    }
}

/// Number of bytes that an unsigned LEB128 number at the start of `s` takes:
/// up to and including the first byte without its continuation bit, at most five.
/// `None` when `s` ends before that.
pub open spec fn leb_len(s: Seq<u8>) -> Option<nat> {
    match leb_stop(s, 0) {
        Some(i) => Some(i + 1),
        None => if s.len() >= 5 {
            Some(5)
        } else {
            None
        },
    }
}

/// The `u32` that an unsigned LEB128 number of `n` bytes encodes, bits past
/// the 32nd dropped.
pub open spec fn leb_value(s: Seq<u8>, n: nat) -> u32 {
    (leb_sum(s, n) % 0x1_0000_0000) as u32
}

proof fn lemma_leb_step(s: Seq<u8>, i: nat)
    requires
        i < s.len(),
        leb_sum(s, i) < pow128(i),
    ensures
        leb_sum(s, i + 1) == leb_sum(s, i) + (s[i as int] % 128) as nat * pow128(i),
        leb_sum(s, i + 1) < pow128(i + 1),
        pow128(i + 1) == 128 * pow128(i),
{
    let d = (s[i as int] % 128) as nat;
    let p = pow128(i);
    assert(d <= 127);
    assert(d * p <= 127 * p) by (nonlinear_arith)
        requires
            d <= 127,
    ;
}

proof fn lemma_pow128_four()
    ensures
        pow128(4) == 0x1000_0000,
{
    assert(pow128(0) == 1);
    assert(pow128(1) == 128);
    assert(pow128(2) == 0x4000);
    assert(pow128(3) == 0x20_0000);
}

/// Reads an unsigned LEB128 number from the start of `data`; returns it with
/// the number of bytes it took.
fn read_u32_leb128(data: &[u8]) -> (r: Result<(u32, usize), WasmFormatError>)
    ensures
        match r {
            Ok((v, n)) => leb_len(data@) == Some(n as nat) && v == leb_value(data@, n as nat)
                && n <= data@.len(),
            Err(_) => leb_len(data@) is None,
        },
{
    let mut acc: u64 = 0;
    let mut pow: u64 = 1;
    let mut i: usize = 0;
    while i < 5
        invariant
            i <= 5,
            pow == pow128(i as nat),
            acc == leb_sum(data@, i as nat),
            acc < pow,
            i <= data@.len(),
            leb_stop(data@, 0) == leb_stop(data@, i as nat),
        decreases 5 - i,
    {
        if i >= data.len() {
            return Err(WasmFormatError);
        }
        let b = data[i];
        proof {
            lemma_leb_step(data@, i as nat);
            lemma_pow128_four();
            if i < 4 {
                lemma_pow128_mono(i as nat, 4);
            }
        }
        acc = acc + (b % 128) as u64 * pow;
        i = i + 1;
        if b < 128 {
            proof {
                assert(leb_stop(data@, (i - 1) as nat) == Some((i - 1) as nat));
            }
            return Ok(((acc % 0x1_0000_0000) as u32, i));
        }
        pow = pow * 128;
    }
    Ok(((acc % 0x1_0000_0000) as u32, 5))
}

proof fn lemma_pow128_mono(a: nat, b: nat)
    requires
        a <= b,
    ensures
        pow128(a) <= pow128(b),
    decreases b - a,
{
    if a < b {
        lemma_pow128_mono(a, (b - 1) as nat);
        assert(pow128(b) == 128 * pow128((b - 1) as nat));
    }
}

proof fn lemma_leb_stop_bound(s: Seq<u8>, i: nat)
    ensures
        leb_stop(s, i) matches Some(j) ==> i <= j && j < 5 && j < s.len(),
    decreases 5 - i,
{
    if i < 5 && i < s.len() && s[i as int] >= 128 {
        lemma_leb_stop_bound(s, i + 1);
    }
}

/// A LEB128 number takes one to five bytes, all of them in `s`.
pub proof fn lemma_leb_len_bound(s: Seq<u8>)
    ensures
        leb_len(s) matches Some(n) ==> 1 <= n <= 5 && n <= s.len(),
{
    lemma_leb_stop_bound(s, 0);
}

/// A length-prefixed UTF-8 string at the start of `s`: its characters and the
/// number of bytes that it takes with its prefix.
pub open spec fn str_field(s: Seq<u8>) -> Option<(Seq<char>, nat)> {
    match leb_len(s) {
        None => None,
        Some(n) => {
            let k = leb_value(s, n) as nat;
            if n + k <= s.len() && valid_utf8(s.subrange(n as int, (n + k) as int)) {
                Some((decode_utf8(s.subrange(n as int, (n + k) as int)), n + k))
            } else {
                None
            }
        },
    }
}

/// Relies on core::str::from_utf8: it accepts exactly the valid UTF-8 byte
/// sequences, and decodes them.
#[verifier::external_body]
pub(crate) fn utf8_str<'a>(b: &'a [u8]) -> (r: Option<&'a str>)
    ensures
        r is Some <==> valid_utf8(b@),
        r matches Some(s) ==> s@ == decode_utf8(b@),
{
    core::str::from_utf8(b).ok()
}

/// A read position in a byte slice; everything before it has been consumed.
pub struct WasmDecoder<'a> {
    data: &'a [u8],
}

impl<'a> View for WasmDecoder<'a> {
    type V = Seq<u8>;

    /// The bytes that are not read yet.
    closed spec fn view(&self) -> Seq<u8> {
        self.data@
    }
}

impl<'a> WasmDecoder<'a> {
    pub fn new(data: &'a [u8]) -> (r: WasmDecoder<'a>)
        ensures
            r@ == data@,
    {
        WasmDecoder { data }
    }

    pub fn len(&self) -> (r: usize)
        ensures
            r == self@.len(),
    {
        self.data.len()
    }

    pub fn eof(&self) -> (r: bool)
        ensures
            r == (self@.len() == 0),
    {
        self.data.len() == 0
    }

    /// Reads an unsigned LEB128 number of at most five bytes.
    pub fn u32(&mut self) -> (r: Result<u32, WasmFormatError>)
        ensures
            match r {
                Ok(v) => exists|n: nat|
                    leb_len(old(self)@) == Some(n) && v == leb_value(old(self)@, n)
                        && final(self)@ == old(self)@.subrange(n as int, old(self)@.len() as int),
                Err(_) => leb_len(old(self)@) is None && final(self)@ == old(self)@,
            },
    {
        let (n, l) = read_u32_leb128(self.data)?;
        self.data = vstd::slice::slice_subrange(self.data, l, self.data.len());
        Ok(n)
    }

    /// Takes the next `amt` bytes.
    pub fn skip(&mut self, amt: usize) -> (r: Result<&'a [u8], WasmFormatError>)
        ensures
            match r {
                Ok(b) => amt <= old(self)@.len() && b@ == old(self)@.subrange(0, amt as int)
                    && final(self)@ == old(self)@.subrange(amt as int, old(self)@.len() as int),
                Err(_) => amt > old(self)@.len() && final(self)@ == old(self)@,
            },
    {
        if amt > self.data.len() {
            return Err(WasmFormatError);
        }
        let data = vstd::slice::slice_subrange(self.data, 0, amt);
        self.data = vstd::slice::slice_subrange(self.data, amt, self.data.len());
        Ok(data)
    }

    /// Reads a string: its length in bytes as an unsigned LEB128 number, then
    /// its UTF-8 bytes.
    pub fn str(&mut self) -> (r: Result<&'a str, WasmFormatError>)
        ensures
            match str_field(old(self)@) {
                Some((t, n)) => r matches Ok(s) && s@ == t
                    && final(self)@ == old(self)@.subrange(n as int, old(self)@.len() as int),
                None => r is Err,
            },
    {
        let ghost s0 = self@;
        proof {
            lemma_leb_len_bound(s0);
        }
        let len = self.u32()?;
        let ghost n = choose|n: nat| leb_len(s0) == Some(n) && len == leb_value(s0, n)
            && self@ == s0.subrange(n as int, s0.len() as int);
        let bytes = match self.skip(len as usize) {
            Ok(b) => b,
            Err(e) => {
                return Err(e);
            },
        };
        proof {
            assert(bytes@ =~= s0.subrange(n as int, (n + len) as int));
            assert(self@ =~= s0.subrange((n + len) as int, s0.len() as int));
        }
        match utf8_str(bytes) {
            Some(s) => Ok(s),
            None => Err(WasmFormatError),
        }
    }
}

} // verus!
