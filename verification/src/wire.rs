//! The protobuf wire envelope the merger reads and writes: base-128 varints
//! and tagged, length-delimited fields.
//!
//! Only length-delimited fields (wire type 2) carry data the relay uses; the
//! other wire types are validated and skipped on decode and never produced on
//! encode. Field numbers and nesting are the caller's business.

use vstd::prelude::*;

verus! {

/// Decode a base-128 varint from the front of `s`: the value and the number
/// of bytes consumed. At most ten bytes form one varint, and the value must
/// fit in 64 bits.
pub open spec fn varint_dec(s: Seq<u8>) -> Option<(nat, int)>
    decreases s.len(),
{
    if s.len() == 0 {
        None
    } else {
        let b = s[0];
        if b < 128 {
            Some((b as nat, 1))
        } else {
            match varint_dec(s.drop_first()) {
                None => None,
                Some((v, n)) => {
                    let value = (b - 128) + 128 * v;
                    if n <= 9 && value <= u64::MAX {
                        Some((value as nat, n + 1))
                    } else {
                        None
                    }
                },
            }
        }
    }
}

/// The shortest base-128 encoding of `v`.
pub open spec fn varint_enc(v: nat) -> Seq<u8>
    decreases v,
{
    if v < 128 {
        seq![v as u8]
    } else {
        seq![(v % 128 + 128) as u8] + varint_enc(v / 128)
    }
}

/// A successful varint decode consumes between one byte and all of `s`.
pub proof fn lemma_varint_dec_len(s: Seq<u8>)
    ensures
        varint_dec(s) matches Some((v, n)) ==> 1 <= n <= s.len(),
    decreases s.len(),
{
    if s.len() > 0 && s[0] >= 128 {
        lemma_varint_dec_len(s.drop_first());
    }
}

/// 128 to the `k`.
pub open spec fn exp128(k: nat) -> nat
    decreases k,
{
    if k == 0 {
        1
    } else {
        128 * exp128((k - 1) as nat)
    }
}

proof fn lemma_varint_enc_len(v: nat, k: nat)
    requires
        k >= 1,
        v < exp128(k),
    ensures
        1 <= varint_enc(v).len() <= k,
    decreases k,
{
    if v >= 128 {
        assert(exp128(k) == 128 * exp128((k - 1) as nat));
        assert(v / 128 < exp128((k - 1) as nat));
        lemma_varint_enc_len(v / 128, (k - 1) as nat);
    }
}

proof fn lemma_exp128_10()
    ensures
        u64::MAX < exp128(10),
        exp128(10) == 128 * exp128(9),
{
    assert(exp128(0) == 1);
    assert(exp128(1) == 128);
    assert(exp128(2) == 16384);
    assert(exp128(3) == 2097152);
    assert(exp128(4) == 268435456);
    assert(exp128(5) == 34359738368);
    assert(exp128(6) == 4398046511104);
    assert(exp128(7) == 562949953421312);
    assert(exp128(8) == 72057594037927936);
    assert(exp128(9) == 9223372036854775808);
    assert(exp128(10) == 1180591620717411303424);
}

/// Encoding then decoding a 64-bit value gives it back, whatever follows it.
pub proof fn lemma_varint_round_trip(v: nat, rest: Seq<u8>)
    requires
        v <= u64::MAX,
    ensures
        varint_enc(v).len() <= 10,
        varint_dec(varint_enc(v) + rest) == Some((v, varint_enc(v).len() as int)),
    decreases v,
{
    lemma_exp128_10();
    lemma_varint_enc_len(v, 10);
    let e = varint_enc(v);
    let s = e + rest;
    if v < 128 {
        assert(s[0] == v as u8);
    } else {
        assert(s[0] == (v % 128 + 128) as u8);
        assert(s[0] >= 128);
        lemma_varint_round_trip(v / 128, rest);
        assert(s.drop_first() =~= varint_enc(v / 128) + rest);
        let b = s[0];
        assert((b - 128) + 128 * (v / 128) == v % 128 + 128 * (v / 128));
        vstd::arithmetic::div_mod::lemma_fundamental_div_mod(v as int, 128);
        assert(v / 128 < exp128(9));
        lemma_varint_enc_len(v / 128, 9);
    }
}

/// Append the varint encoding of `v` to `out`.
pub fn put_varint(out: &mut Vec<u8>, v: u64)
    ensures
        final(out)@ == old(out)@ + varint_enc(v as nat),
    decreases v,
{
    if v < 128 {
        out.push(v as u8);
        proof {
            assert(out@ =~= old(out)@ + varint_enc(v as nat));
        }
    } else {
        out.push((v % 128 + 128) as u8);
        let ghost mid = out@;
        put_varint(out, v / 128);
        proof {
            assert(mid =~= old(out)@ + seq![(v as nat % 128 + 128) as u8]);
            assert(out@ =~= old(out)@ + varint_enc(v as nat));
        }
    }
}

/// Decode a varint at position `pos`; the value and the position after it.
pub fn get_varint(buf: &Vec<u8>, pos: usize) -> (r: Option<(u64, usize)>)
    requires
        pos <= buf@.len(),
    ensures
        match r {
            Some((v, end)) => pos < end <= buf@.len() && varint_dec(
                buf@.subrange(pos as int, buf@.len() as int),
            ) == Some((v as nat, end - pos as int)),
            None => varint_dec(buf@.subrange(pos as int, buf@.len() as int)) is None,
        },
    decreases buf@.len() - pos,
{
    let ghost s = buf@.subrange(pos as int, buf@.len() as int);
    if pos == buf.len() {
        return None;
    }
    let b = buf[pos];
    proof {
        assert(s[0] == b);
    }
    if b < 128 {
        return Some((b as u64, pos + 1));
    }
    proof {
        assert(s.drop_first() =~= buf@.subrange(pos as int + 1, buf@.len() as int));
    }
    match get_varint(buf, pos + 1) {
        None => None,
        Some((v, end)) => {
            let n = end - (pos + 1);
            if n <= 9 && v <= (u64::MAX - (b - 128) as u64) / 128 {
                let value = (b - 128) as u64 + 128 * v;
                proof {
                    assert((b - 128) as nat + 128 * (v as nat) <= u64::MAX);
                }
                Some((value, end))
            } else {
                proof {
                    let bn = (s[0] - 128) as nat;
                    if n <= 9 {
                        assert(v > (u64::MAX - bn as u64) / 128);
                        assert(bn + 128 * (v as nat) > u64::MAX);
                    }
                }
                None
            }
        },
    }
}

/// All length-delimited fields of a message body, in order: field number and
/// payload. Fields of the other wire types are validated and skipped; an
/// ill-formed body yields `None`.
pub open spec fn fields_dec(s: Seq<u8>) -> Option<Seq<(nat, Seq<u8>)>>
    decreases s.len(),
    via fields_dec_decreases
{
    if s.len() == 0 {
        Some(Seq::empty())
    } else {
        match varint_dec(s) {
            None => None,
            Some((tag, n1)) => {
                let field = tag / 8;
                let wt = tag % 8;
                let rest = s.skip(n1);
                if field == 0 {
                    None
                } else if wt == 2 {
                    match varint_dec(rest) {
                        None => None,
                        Some((len, n2)) => {
                            if n2 + len <= rest.len() {
                                match fields_dec(rest.skip(n2 + len)) {
                                    None => None,
                                    Some(fs) => Some(
                                        seq![(field, rest.subrange(n2, n2 + len))] + fs,
                                    ),
                                }
                            } else {
                                None
                            }
                        },
                    }
                } else if wt == 0 {
                    match varint_dec(rest) {
                        None => None,
                        Some((skipped, n2)) => fields_dec(rest.skip(n2)),
                    }
                } else if wt == 1 {
                    if rest.len() >= 8 {
                        fields_dec(rest.skip(8))
                    } else {
                        None
                    }
                } else if wt == 5 {
                    if rest.len() >= 4 {
                        fields_dec(rest.skip(4))
                    } else {
                        None
                    }
                } else {
                    None
                }
            },
        }
    }
}

#[via_fn]
proof fn fields_dec_decreases(s: Seq<u8>) {
    if s.len() != 0 {
        lemma_varint_dec_len(s);
        if varint_dec(s) is Some {
            let n1 = varint_dec(s)->Some_0.1;
            let rest = s.skip(n1);
            lemma_varint_dec_len(rest);
        }
    }
}

/// The spec-level shape of an exec field list.
pub open spec fn fields_view(fs: Seq<(u64, Vec<u8>)>) -> Seq<(nat, Seq<u8>)> {
    fs.map_values(|f: (u64, Vec<u8>)| (f.0 as nat, f.1@))
}

/// Copy `buf[from..to]` out.
pub fn copy_range(buf: &Vec<u8>, from: usize, to: usize) -> (r: Vec<u8>)
    requires
        from <= to <= buf@.len(),
    ensures
        r@ == buf@.subrange(from as int, to as int),
{
    let mut r: Vec<u8> = Vec::new();
    let mut i = from;
    while i < to
        invariant
            from <= i <= to <= buf@.len(),
            r@ == buf@.subrange(from as int, i as int),
        decreases to - i,
    {
        r.push(buf[i]);
        proof {
            assert(r@ =~= buf@.subrange(from as int, i as int + 1));
        }
        i = i + 1;
    }
    r
}

fn get_fields_from(buf: &Vec<u8>, pos: usize) -> (r: Option<Vec<(u64, Vec<u8>)>>)
    requires
        pos <= buf@.len(),
    ensures
        match r {
            Some(fs) => fields_dec(buf@.subrange(pos as int, buf@.len() as int)) == Some(
                fields_view(fs@),
            ),
            None => fields_dec(buf@.subrange(pos as int, buf@.len() as int)) is None,
        },
    decreases buf@.len() - pos,
{
    let ghost s = buf@.subrange(pos as int, buf@.len() as int);
    if pos == buf.len() {
        let fs: Vec<(u64, Vec<u8>)> = Vec::new();
        proof {
            assert(fields_view(fs@) =~= Seq::<(nat, Seq<u8>)>::empty());
        }
        return Some(fs);
    }
    match get_varint(buf, pos) {
        None => None,
        Some((tag, p1)) => {
            let field = tag / 8;
            let wt = tag % 8;
            proof {
                assert(s.skip(p1 - pos) =~= buf@.subrange(p1 as int, buf@.len() as int));
            }
            if field == 0 {
                None
            } else if wt == 2 {
                match get_varint(buf, p1) {
                    None => None,
                    Some((flen, p2)) => {
                        if flen <= (buf.len() - p2) as u64 {
                            let end = p2 + flen as usize;
                            let payload = copy_range(buf, p2, end);
                            proof {
                                let rest = buf@.subrange(p1 as int, buf@.len() as int);
                                assert(rest.subrange(
                                    p2 - p1,
                                    p2 - p1 + flen as int,
                                ) =~= payload@);
                                assert(rest.skip(p2 - p1 + flen as int) =~= buf@.subrange(
                                    end as int,
                                    buf@.len() as int,
                                ));
                            }
                            match get_fields_from(buf, end) {
                                None => None,
                                Some(fs) => {
                                    let mut fs = fs;
                                    let ghost fs0 = fs@;
                                    fs.insert(0, (field, payload));
                                    proof {
                                        assert(fs@.drop_first() =~= fs0);
                                        assert(fields_view(fs@) =~= seq![
                                            (field as nat, payload@),
                                        ] + fields_view(fs0));
                                    }
                                    Some(fs)
                                },
                            }
                        } else {
                            None
                        }
                    },
                }
            } else if wt == 0 {
                match get_varint(buf, p1) {
                    None => None,
                    Some((skipped, p2)) => {
                        proof {
                            let rest = buf@.subrange(p1 as int, buf@.len() as int);
                            assert(rest.skip(p2 - p1) =~= buf@.subrange(
                                p2 as int,
                                buf@.len() as int,
                            ));
                        }
                        get_fields_from(buf, p2)
                    },
                }
            } else if wt == 1 {
                if buf.len() - p1 >= 8 {
                    proof {
                        let rest = buf@.subrange(p1 as int, buf@.len() as int);
                        assert(rest.skip(8) =~= buf@.subrange(
                            p1 as int + 8,
                            buf@.len() as int,
                        ));
                    }
                    get_fields_from(buf, p1 + 8)
                } else {
                    None
                }
            } else if wt == 5 {
                if buf.len() - p1 >= 4 {
                    proof {
                        let rest = buf@.subrange(p1 as int, buf@.len() as int);
                        assert(rest.skip(4) =~= buf@.subrange(
                            p1 as int + 4,
                            buf@.len() as int,
                        ));
                    }
                    get_fields_from(buf, p1 + 4)
                } else {
                    None
                }
            } else {
                None
            }
        },
    }
}

/// Decode a whole message body into its length-delimited fields.
pub fn get_fields(buf: &Vec<u8>) -> (r: Option<Vec<(u64, Vec<u8>)>>)
    ensures
        match r {
            Some(fs) => fields_dec(buf@) == Some(fields_view(fs@)),
            None => fields_dec(buf@) is None,
        },
{
    proof {
        assert(buf@.subrange(0, buf@.len() as int) =~= buf@);
    }
    get_fields_from(buf, 0)
}

/// The encoding of one length-delimited field.
pub open spec fn field_enc(field: nat, payload: Seq<u8>) -> Seq<u8> {
    varint_enc(8 * field + 2) + varint_enc(payload.len()) + payload
}

/// The largest field number whose tag fits a 64-bit varint.
pub const MAX_FIELD: u64 = 0x1fffffffffffffff;

/// Append one length-delimited field to `out`.
pub fn put_field(out: &mut Vec<u8>, field: u64, payload: &Vec<u8>)
    requires
        1 <= field <= MAX_FIELD,
    ensures
        final(out)@ == old(out)@ + field_enc(field as nat, payload@),
{
    put_varint(out, 8 * field + 2);
    put_varint(out, payload.len() as u64);
    let ghost mid = out@;
    let mut i: usize = 0;
    while i < payload.len()
        invariant
            i <= payload@.len(),
            out@ == mid + payload@.subrange(0, i as int),
        decreases payload@.len() - i,
    {
        out.push(payload[i]);
        proof {
            assert(mid + payload@.subrange(0, i as int + 1) =~= out@);
        }
        i = i + 1;
    }
    proof {
        assert(payload@.subrange(0, payload@.len() as int) =~= payload@);
        assert(out@ =~= old(out)@ + field_enc(field as nat, payload@));
    }
}

/// Decoding an encoded field from the front of a well-formed tail yields the
/// field, then the tail's fields.
pub proof fn lemma_field_round_trip(field: nat, payload: Seq<u8>, rest: Seq<u8>)
    requires
        1 <= field <= MAX_FIELD,
        payload.len() <= u64::MAX,
        fields_dec(rest) is Some,
    ensures
        fields_dec(field_enc(field, payload) + rest) == Some(
            seq![(field, payload)] + fields_dec(rest)->Some_0,
        ),
{
    let tag = 8 * field + 2;
    let tail1 = varint_enc(payload.len()) + payload + rest;
    let s = field_enc(field, payload) + rest;
    assert(s =~= varint_enc(tag) + tail1);
    lemma_varint_round_trip(tag, tail1);
    let n1 = varint_enc(tag).len() as int;
    assert(varint_dec(s) == Some((tag, n1)));
    assert(tag / 8 == field);
    assert(tag % 8 == 2);
    let rest1 = s.skip(n1);
    assert(rest1 =~= varint_enc(payload.len()) + (payload + rest));
    lemma_varint_round_trip(payload.len(), payload + rest);
    let n2 = varint_enc(payload.len()).len() as int;
    assert(varint_dec(rest1) == Some((payload.len(), n2)));
    assert(n2 + payload.len() <= rest1.len());
    assert(rest1.subrange(n2, n2 + payload.len() as int) =~= payload);
    assert(rest1.skip(n2 + payload.len() as int) =~= rest);
    assert(s.len() != 0);
}

} // verus!
