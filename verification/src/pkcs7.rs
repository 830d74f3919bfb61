//! PKCS#7 padding for AES block size

use vstd::prelude::*;
use vstd::slice::slice_subrange;
use vstd::slice::slice_to_vec;

verus! {

/// PKCS#7 padding errors
#[derive(Debug)]
pub enum Error {
    InvalidLength,
    InvalidPadding,
}

/// PKCS#7-style padding: append (16 - len % 16) bytes of that same value,
/// or nothing at all when the buffer is already block-aligned.
pub open spec fn pad_bytes(buf: Seq<u8>) -> Seq<u8> {
    let r = buf.len() % 16;
    if r == 0 {
        buf
    } else {
        buf + Seq::new((16 - r) as nat, |i: int| (16 - r) as u8)
    }
}

/// The trailing n bytes of the buffer all hold the value n.
pub open spec fn has_pad(buf: Seq<u8>, n: int) -> bool {
    forall|k: int| buf.len() - n <= k < buf.len() ==> buf[k] == n
}

/// No byte of the trailing 16-byte block holds a padding value (1 to 15):
/// the buffer is plausibly one that was never padded.
pub open spec fn tail_clean(buf: Seq<u8>) -> bool {
    forall|k: int| buf.len() - 16 <= k < buf.len() ==> !(1 <= #[trigger] buf[k] <= 15)
}

/// The unpadding decision table over a block-aligned buffer of length at
/// least 16: a full block of the value 16 is removed entirely; otherwise the
/// value of the last byte names the only removable padding run; otherwise a
/// trailing block free of padding values is accepted unchanged.
pub open spec fn unpad_bytes(buf: Seq<u8>) -> Result<Seq<u8>, Error> {
    let v = buf[buf.len() - 1] as int;
    if has_pad(buf, 16) {
        Ok(buf.take(buf.len() - 16))
    } else if 1 <= v <= 15 && has_pad(buf, v) {
        Ok(buf.take(buf.len() - v))
    } else if tail_clean(buf) {
        Ok(buf)
    } else {
        Err(Error::InvalidPadding)
    }
}

/// Pads a buffer to the next multiple of AES block-size with PKCS#7 specified bytes
///
/// A buffer that is already a multiple of the block size comes back unchanged.
pub fn pad(buf: &[u8]) -> (res: Vec<u8>)
    ensures
        res@ == pad_bytes(buf@),
        buf@.len() % 16 == 0 ==> res@ == buf@,
{
    let r = buf.len() % 16;
    let mut res = slice_to_vec(buf);
    if r != 0 {
        let n = 16 - r;
        let mut t: usize = 0;
        while t < n
            invariant
                t <= n,
                buf@.len() % 16 != 0,
                n == 16 - buf@.len() % 16,
                res@.len() == buf@.len() + t,
                forall|j: int| 0 <= j < buf@.len() ==> res@[j] == buf@[j],
                forall|j: int| buf@.len() <= j < buf@.len() + t ==> res@[j] == n as u8,
            decreases n - t,
        {
            res.push(n as u8);
            t += 1;
        }
        proof {
            assert(res@ =~= pad_bytes(buf@));
        }
    }
    res
}

/// Remove PKCS#7 padding from provided buffer
pub fn unpad(buf: &[u8]) -> (res: Result<Vec<u8>, Error>)
    ensures
        (buf@.len() < 16 || buf@.len() % 16 != 0) ==> (res matches Err(Error::InvalidLength)),
        buf@.len() >= 16 && buf@.len() % 16 == 0 ==> (match unpad_bytes(buf@) {
            Ok(s) => res matches Ok(v) && v@ == s,
            Err(e) => res matches Err(e2) && e2 == e,
        }),
{
    let len = buf.len();

    if len < 16 || len % 16 != 0 {
        return Err(Error::InvalidLength);
    }

    // a full trailing block of the value 16 is removed entirely
    let mut all16 = true;
    let mut j: usize = len - 16;
    while j < len
        invariant
            len == buf@.len(),
            16 <= len,
            len - 16 <= j <= len,
            all16 <==> (forall|k: int| len - 16 <= k < j ==> buf@[k] == 16),
        decreases len - j,
    {
        if buf[j] != 16 {
            all16 = false;
        }
        j += 1;
    }
    if all16 {
        return Ok(slice_to_vec(slice_subrange(buf, 0, len - 16)));
    }

    // otherwise the last byte names the only candidate padding run
    let v = buf[len - 1];
    if v >= 1 && v <= 15 {
        let nv = v as usize;
        let mut ok = true;
        let mut j2: usize = len - nv;
        while j2 < len
            invariant
                len == buf@.len(),
                16 <= len,
                1 <= nv <= 15,
                nv == v as int,
                len - nv <= j2 <= len,
                ok <==> (forall|k: int| len - nv <= k < j2 ==> buf@[k] == v),
            decreases len - j2,
        {
            if buf[j2] != v {
                ok = false;
            }
            j2 += 1;
        }
        if ok {
            return Ok(slice_to_vec(slice_subrange(buf, 0, len - nv)));
        }
    }

    // no recognized run: accept the buffer as never padded only if its
    // trailing block holds no padding-valued byte at all
    let mut clean = true;
    let mut j3: usize = len - 16;
    while j3 < len
        invariant
            len == buf@.len(),
            16 <= len,
            len - 16 <= j3 <= len,
            clean <==> (forall|k: int| len - 16 <= k < j3 ==> !(1 <= #[trigger] buf@[k] <= 15)),
        decreases len - j3,
    {
        let b = buf[j3];
        if b >= 1 && b <= 15 {
            clean = false;
        }
        j3 += 1;
    }
    if clean {
        Ok(slice_to_vec(buf))
    } else {
        Err(Error::InvalidPadding)
    }
}

/// Padding round trip: unpadding a padded buffer returns the original
/// whenever the buffer was not already block-aligned.
pub proof fn lemma_pad_unpad_round_trip(buf: Seq<u8>)
    requires
        buf.len() % 16 != 0,
    ensures
        unpad_bytes(pad_bytes(buf)) == Ok::<Seq<u8>, Error>(buf),
{
    vstd::arithmetic::div_mod::lemma_mod_pos_bound(buf.len() as int, 16);
    let r = buf.len() % 16;
    let n = 16 - r;
    let p = pad_bytes(buf);
    assert(p.len() == buf.len() + n);
    assert(p[p.len() - 1] == n as u8);
    assert(!has_pad(p, 16)) by {
        assert(p[p.len() - 1] != 16);
    }
    assert(has_pad(p, n as int)) by {
        assert forall|k: int| p.len() - n <= k < p.len() implies p[k] == n by {
            assert(p[k] == (16 - r) as u8);
        }
    }
    assert(p.take(p.len() - n) =~= buf);
}

} // verus!
