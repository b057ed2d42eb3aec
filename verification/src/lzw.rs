//! The dictionary coder. A dictionary (here: a table) binds codes to byte
//! sequences; codes 0 through 255 are bound to the single bytes, code 256 is
//! a bootstrap entry that only moves the next free code to 257, and encoder
//! and decoder append further entries in lock step. `spec_encode` and
//! `spec_decode` are the mathematical coder; `encode`/`decode` are the
//! executable one, and `compress`/`decompress` run it through the packed-bit
//! codec. `lemma_round_trip` proves that decoding an encoding gives the
//! input back, and `lemma_table_lockstep` that both sides build the same
//! table.
use crate::bits::lemma_pow2_le_65536;
use crate::bits::lemma_pow2_shift;
use crate::bits::num_words;
use crate::bits::pack_spec;
use crate::bits::pad_bits;
use crate::bits::pow2;
use crate::bits::unpack_spec;
use crate::bits::word_bits;
use crate::bits::words_bits;
use crate::bits::bytes_bits;
use crate::bits::lemma_bytes_bits_inj;
use crate::bitstream::BitStream;
use crate::CodecError;
use vstd::prelude::*;

verus! {

/// The encoder's state: the table of entries indexed by code, the working
/// symbol still being extended, and the codes emitted so far.
pub ghost struct CoderState {
    pub table: Seq<Seq<u8>>,
    pub sym: Seq<u8>,
    pub emitted: Seq<int>,
}

/// The decoder's state: its mirrored table, the entry of the last code, and
/// the bytes produced so far.
pub ghost struct MirrorState {
    pub table: Seq<Seq<u8>>,
    pub sym: Seq<u8>,
    pub produced: Seq<u8>,
}

/// The 257 bootstrap entries: each single byte under its own value, and the
/// sentinel entry at code 256 whose only role is to start free codes at 257.
pub open spec fn start_table() -> Seq<Seq<u8>> {
    Seq::new(
        257,
        |c: int|
            if c < 256 {
                seq![c as u8]
            } else {
                seq![1u8, 0u8]
            },
    )
}

/// Whether some code is bound to the byte sequence `s`.
pub open spec fn table_has(t: Seq<Seq<u8>>, s: Seq<u8>) -> bool {
    exists|c: int| 0 <= c < t.len() && t[c] == s
}

/// The code bound to `s` (the tables here bind each sequence at most once).
pub open spec fn table_code(t: Seq<Seq<u8>>, s: Seq<u8>) -> int {
    choose|c: int| 0 <= c < t.len() && t[c] == s
}

/// One encoder step: extend the working symbol by `b`; on a miss, emit the
/// code of the symbol before `b`, bind the extended symbol to the next free
/// code, and restart the symbol from `b`.
pub open spec fn enc_step(st: CoderState, b: u8) -> CoderState {
    let ext = st.sym.push(b);
    if table_has(st.table, ext) {
        CoderState { table: st.table, sym: ext, emitted: st.emitted }
    } else {
        CoderState {
            table: st.table.push(ext),
            sym: seq![b],
            emitted: st.emitted.push(table_code(st.table, st.sym)),
        }
    }
}

/// The encoder's state after consuming `input`.
pub open spec fn enc_run(input: Seq<u8>) -> CoderState
    decreases input.len(),
{
    if input.len() == 0 {
        CoderState { table: start_table(), sym: Seq::empty(), emitted: Seq::empty() }
    } else {
        enc_step(enc_run(input.drop_last()), input.last())
    }
}

/// The full code sequence for `input`: everything emitted along the way,
/// then the code of the final working symbol, if any.
pub open spec fn spec_encode(input: Seq<u8>) -> Seq<int> {
    let st = enc_run(input);
    if st.sym.len() > 0 {
        st.emitted.push(table_code(st.table, st.sym))
    } else {
        st.emitted
    }
}

/// The decoder's state after its first code: the code must be bound, its
/// entry starts both the output and the working symbol.
pub open spec fn dec_start(c: int) -> Option<MirrorState> {
    if 0 <= c < start_table().len() {
        Some(MirrorState { table: start_table(), sym: start_table()[c], produced: start_table()[c] })
    } else {
        None
    }
}

/// One decoder step. A bound code appends its entry; the next free code —
/// and only that one — is synthesized from the working symbol and its own
/// first byte; any other code is a gap and fails.
pub open spec fn dec_step(st: MirrorState, c: int) -> Option<MirrorState> {
    if 0 <= c < st.table.len() {
        let entry = st.table[c];
        Some(
            MirrorState {
                table: st.table.push(st.sym.push(entry[0])),
                sym: entry,
                produced: st.produced + entry,
            },
        )
    } else if c == st.table.len() && st.sym.len() > 0 {
        let entry = st.sym.push(st.sym[0]);
        Some(MirrorState { table: st.table.push(entry), sym: entry, produced: st.produced + entry })
    } else {
        None
    }
}

/// The decoder's state after a non-empty code sequence.
pub open spec fn dec_run(codes: Seq<int>) -> Option<MirrorState>
    decreases codes.len(),
{
    if codes.len() == 0 {
        None
    } else if codes.len() == 1 {
        dec_start(codes[0])
    } else {
        match dec_run(codes.drop_last()) {
            Some(st) => dec_step(st, codes.last()),
            None => None,
        }
    }
}

/// The bytes a code sequence decodes to; a code gap gives `None`.
pub open spec fn spec_decode(codes: Seq<int>) -> Option<Seq<u8>> {
    if codes.len() == 0 {
        Some(Seq::empty())
    } else {
        match dec_run(codes) {
            Some(st) => Some(st.produced),
            None => None,
        }
    }
}

/// What every reachable table looks like: the bootstrap entries first, all
/// entries non-empty, and no sequence bound twice.
pub open spec fn table_wf(t: Seq<Seq<u8>>) -> bool {
    &&& t.len() >= 257
    &&& forall|c: int| 0 <= c < 257 ==> t[c] == start_table()[c]
    &&& forall|c: int| 0 <= c < t.len() ==> t[c].len() >= 1
    &&& forall|c1: int, c2: int| 0 <= c1 < c2 < t.len() ==> t[c1] != t[c2]
}

pub proof fn lemma_start_table_wf()
    ensures
        table_wf(start_table()),
{
    let t = start_table();
    assert forall|c1: int, c2: int| 0 <= c1 < c2 < t.len() implies t[c1] != t[c2] by {
        if c2 < 256 {
            assert(t[c1][0] == c1 as u8);
            assert(t[c2][0] == c2 as u8);
        } else {
            assert(t[c1].len() == 1 && t[c2].len() == 2);
        }
    }
}

/// The lock-step invariant between encoder and decoder: after the decoder
/// has replayed every code the encoder emitted so far, its table is the
/// encoder's table short of its newest entry, its working symbol is that
/// newest entry short of its last byte, and its output plus the encoder's
/// pending symbol is exactly the input consumed.
pub proof fn lemma_lockstep(input: Seq<u8>)
    ensures
        ({
            let e = enc_run(input);
            &&& table_wf(e.table)
            &&& (e.sym.len() == 0 <==> input.len() == 0)
            &&& (input.len() > 0 ==> table_has(e.table, e.sym))
            &&& e.table.len() == 257 + e.emitted.len()
            &&& (e.emitted.len() == 0 ==> e.table == start_table() && e.sym == input)
            &&& (e.emitted.len() > 0 ==> dec_run(e.emitted) is Some && {
                let d = dec_run(e.emitted).unwrap();
                &&& d.table == e.table.drop_last()
                &&& e.table.last() == d.sym.push(e.sym[0])
                &&& d.sym.len() >= 1
                &&& d.produced + e.sym == input
            })
        }),
    decreases input.len(),
{
    lemma_start_table_wf();
    if input.len() == 0 {
        assert(enc_run(input).emitted.len() == 0);
    } else {
        let pre = input.drop_last();
        let b = input.last();
        lemma_lockstep(pre);
        let e0 = enc_run(pre);
        let e = enc_run(input);
        assert(e == enc_step(e0, b));
        let ext = e0.sym.push(b);
        assert(pre.push(b) =~= input);
        if table_has(e0.table, ext) {
            // a hit: nothing moves but the working symbol
            assert(e.table == e0.table && e.sym == ext && e.emitted == e0.emitted);
            if e0.emitted.len() == 0 {
                assert(e.sym =~= input);
            } else {
                let d = dec_run(e0.emitted).unwrap();
                assert(ext[0] == e0.sym[0]);
                assert(d.produced + e.sym =~= (d.produced + e0.sym).push(b));
                assert((d.produced + e0.sym).push(b) =~= input);
            }
        } else {
            // a miss: emit the symbol's code, bind the extension
            if e0.sym.len() == 0 {
                assert(e0.table[b as int] == start_table()[b as int]);
                assert(start_table()[b as int] == seq![b]);
                assert(ext =~= seq![b]);
                assert(false);
            }
            let c = table_code(e0.table, e0.sym);
            assert(table_has(e0.table, e0.sym));
            assert(0 <= c < e0.table.len() && e0.table[c] == e0.sym);
            assert(e.table == e0.table.push(ext));
            assert(e.sym == seq![b]);
            assert(e.emitted == e0.emitted.push(c));
            assert(e.table.last() == ext);
            assert(e.table.drop_last() =~= e0.table);
            assert(table_wf(e.table)) by {
                assert(forall|c1: int| 0 <= c1 < e0.table.len() ==> e.table[c1] == e0.table[c1]);
                assert forall|c1: int, c2: int| 0 <= c1 < c2 < e.table.len() implies e.table[c1]
                    != e.table[c2] by {
                    if c2 == e.table.len() - 1 {
                        assert(e.table[c2] == ext);
                        assert(!table_has(e0.table, ext));
                        assert(e0.table[c1] != ext);
                    }
                }
            }
            assert(table_has(e.table, e.sym)) by {
                assert(e.table[b as int] == start_table()[b as int]);
                assert(e.table[b as int] == seq![b]);
            }
            assert(e.emitted.drop_last() =~= e0.emitted);
            assert(e.emitted.last() == c);
            assert(ext[0] == e0.sym[0]);
            if e0.emitted.len() == 0 {
                // the very first emitted code: the decoder starts from it
                assert(e0.table == start_table() && e0.sym == pre);
                assert(e.emitted.len() == 1);
                assert(dec_run(e.emitted) == dec_start(c));
                assert(0 <= c < 257);
                let d = dec_run(e.emitted).unwrap();
                assert(d.table == start_table());
                assert(d.sym == start_table()[c]);
                assert(d.sym == e0.sym);
                assert(e.table.last() == d.sym.push(e.sym[0]));
                assert(d.produced + e.sym =~= input);
            } else {
                let d0 = dec_run(e0.emitted).unwrap();
                assert(e.emitted.len() >= 2);
                assert(dec_run(e.emitted) == dec_step(d0, c)) by {
                    assert(dec_run(e.emitted.drop_last()) == dec_run(e0.emitted));
                }
                assert(d0.table.len() == e0.table.len() - 1);
                assert(c <= d0.table.len());
                if c < d0.table.len() {
                    // the emitted code is already bound on the decoder side
                    let entry = d0.table[c];
                    assert(entry == e0.table[c]);
                    assert(entry == e0.sym);
                    let d = dec_step(d0, c).unwrap();
                    assert(d.table == d0.table.push(d0.sym.push(entry[0])));
                    assert(d0.sym.push(entry[0]) == e0.table.last());
                    assert(d.table =~= e0.table);
                    assert(d.sym == e0.sym);
                    assert(d.produced + e.sym =~= (d0.produced + e0.sym).push(b));
                    assert((d0.produced + e0.sym).push(b) =~= input);
                    assert(e.table.last() == d.sym.push(e.sym[0])) by {
                        assert(e.sym[0] == b);
                    }
                } else {
                    // the self-referential case: the code is the entry the
                    // decoder is about to create
                    assert(c == e0.table.len() - 1);
                    assert(e0.table[c] == e0.table.last());
                    assert(e0.table.last() == d0.sym.push(e0.sym[0]));
                    assert(e0.sym == d0.sym.push(e0.sym[0]));
                    assert(e0.sym[0] == d0.sym[0]) by {
                        assert(e0.sym[0] == d0.sym.push(e0.sym[0])[0]);
                    }
                    let entry = d0.sym.push(d0.sym[0]);
                    assert(entry == e0.sym);
                    let d = dec_step(d0, c).unwrap();
                    assert(d.table == d0.table.push(entry));
                    assert(d.table =~= e0.table) by {
                        assert(e0.table.drop_last() =~= d0.table);
                    }
                    assert(d.sym == e0.sym);
                    assert(d.produced + e.sym =~= (d0.produced + e0.sym).push(b));
                    assert((d0.produced + e0.sym).push(b) =~= input);
                    assert(e.table.last() == d.sym.push(e.sym[0])) by {
                        assert(e.sym[0] == b);
                    }
                }
            }
        }
    }
}

/// Replaying a non-empty encoding leaves the decoder with exactly the
/// encoder's final table, and with the original input as its output.
pub proof fn lemma_decode_encode(input: Seq<u8>)
    requires
        input.len() > 0,
    ensures
        dec_run(spec_encode(input)) is Some,
        dec_run(spec_encode(input)).unwrap().produced == input,
        dec_run(spec_encode(input)).unwrap().table == enc_run(input).table,
{
    lemma_lockstep(input);
    let e = enc_run(input);
    let c = table_code(e.table, e.sym);
    assert(table_has(e.table, e.sym));
    assert(0 <= c < e.table.len() && e.table[c] == e.sym);
    let codes = spec_encode(input);
    assert(codes == e.emitted.push(c));
    assert(codes.drop_last() =~= e.emitted);
    assert(codes.last() == c);
    if e.emitted.len() == 0 {
        assert(e.table == start_table() && e.sym == input);
        assert(codes.len() == 1);
        assert(dec_run(codes) == dec_start(c));
        assert(0 <= c < 257);
        let d = dec_run(codes).unwrap();
        assert(d.produced == start_table()[c]);
        assert(d.produced == input);
        assert(d.table == e.table);
    } else {
        let d0 = dec_run(e.emitted).unwrap();
        assert(codes.len() >= 2);
        assert(dec_run(codes) == dec_step(d0, c)) by {
            assert(dec_run(codes.drop_last()) == dec_run(e.emitted));
        }
        assert(d0.table.len() == e.table.len() - 1);
        assert(c <= d0.table.len());
        if c < d0.table.len() {
            let entry = d0.table[c];
            assert(entry == e.table[c]);
            assert(entry == e.sym);
            let d = dec_step(d0, c).unwrap();
            assert(d.produced =~= input);
            assert(d.table == d0.table.push(d0.sym.push(entry[0])));
            assert(d0.sym.push(entry[0]) == e.table.last());
            assert(d.table =~= e.table);
        } else {
            assert(c == e.table.len() - 1);
            assert(e.table[c] == e.table.last());
            assert(e.table.last() == d0.sym.push(e.sym[0]));
            assert(e.sym == d0.sym.push(e.sym[0]));
            assert(e.sym[0] == d0.sym[0]) by {
                assert(e.sym[0] == d0.sym.push(e.sym[0])[0]);
            }
            let entry = d0.sym.push(d0.sym[0]);
            assert(entry == e.sym);
            let d = dec_step(d0, c).unwrap();
            assert(d.produced =~= input);
            assert(d.table == d0.table.push(entry));
            assert(d.table =~= e.table) by {
                assert(e.table.drop_last() =~= d0.table);
            }
        }
    }
}

/// The round trip: decoding any encoding gives the input back, byte for
/// byte, for every finite input.
pub proof fn lemma_round_trip(input: Seq<u8>)
    ensures
        spec_decode(spec_encode(input)) == Some(input),
{
    if input.len() == 0 {
        assert(enc_run(input).emitted.len() == 0);
        assert(spec_encode(input).len() == 0);
        assert(spec_decode(spec_encode(input)) == Some(Seq::<u8>::empty()));
        assert(Seq::<u8>::empty() =~= input);
    } else {
        lemma_lockstep(input);
        lemma_decode_encode(input);
        assert(spec_encode(input).len() > 0);
    }
}

/// Dictionary determinism: fed the encoder's output, the decoder binds the
/// same byte sequences to the same codes in the same order — the two tables
/// come out identical.
pub proof fn lemma_table_lockstep(input: Seq<u8>)
    requires
        input.len() > 0,
    ensures
        dec_run(spec_encode(input)) is Some,
        dec_run(spec_encode(input)).unwrap().table == enc_run(input).table,
{
    lemma_decode_encode(input);
}

/// Consuming one more input byte is one encoder step.
pub proof fn lemma_enc_take_step(input: Seq<u8>, i: int)
    requires
        0 <= i < input.len(),
    ensures
        enc_run(input.take(i + 1)) == enc_step(enc_run(input.take(i)), input[i]),
{
    assert(input.take(i + 1).drop_last() =~= input.take(i));
    assert(input.take(i + 1).last() == input[i]);
}

/// The encoder's table only ever grows.
pub proof fn lemma_enc_table_len_monotone(input: Seq<u8>, j: int)
    requires
        0 <= j <= input.len(),
    ensures
        enc_run(input.take(j)).table.len() <= enc_run(input).table.len(),
    decreases input.len() - j,
{
    if j == input.len() {
        assert(input.take(j) =~= input);
    } else {
        lemma_enc_take_step(input, j);
        lemma_enc_table_len_monotone(input, j + 1);
    }
}

/// Consuming one more code is one decoder step.
pub proof fn lemma_dec_take_step(codes: Seq<int>, i: int)
    requires
        1 <= i < codes.len(),
    ensures
        dec_run(codes.take(i + 1)) == match dec_run(codes.take(i)) {
            Some(st) => dec_step(st, codes[i]),
            None => None,
        },
{
    assert(codes.take(i + 1).drop_last() =~= codes.take(i));
    assert(codes.take(i + 1).last() == codes[i]);
    assert(codes.take(i + 1).len() >= 2);
}

/// Once the decoder fails on a prefix, the whole stream fails.
pub proof fn lemma_dec_none_extends(codes: Seq<int>, j: int)
    requires
        1 <= j <= codes.len(),
        dec_run(codes.take(j)) is None,
    ensures
        dec_run(codes) is None,
    decreases codes.len() - j,
{
    if j == codes.len() {
        assert(codes.take(j) =~= codes);
    } else {
        lemma_dec_take_step(codes, j);
        lemma_dec_none_extends(codes, j + 1);
    }
}

/// The byte-sequence view of an executable table.
pub open spec fn table_view(t: Seq<Vec<u8>>) -> Seq<Seq<u8>> {
    t.map_values(|v: Vec<u8>| v@)
}

fn copy_bytes(v: &Vec<u8>) -> (r: Vec<u8>)
    ensures
        r@ == v@,
{
    let mut r: Vec<u8> = Vec::new();
    let mut i: usize = 0;
    while i < v.len()
        invariant
            0 <= i <= v@.len(),
            r@ == v@.take(i as int),
        decreases v@.len() - i,
    {
        r.push(v[i]);
        proof {
            assert(r@ =~= v@.take(i + 1));
        }
        i += 1;
    }
    proof {
        assert(v@.take(v@.len() as int) =~= v@);
    }
    r
}

fn append_bytes(dst: &mut Vec<u8>, src: &Vec<u8>)
    ensures
        final(dst)@ == old(dst)@ + src@,
{
    let ghost base = dst@;
    let mut i: usize = 0;
    while i < src.len()
        invariant
            0 <= i <= src@.len(),
            dst@ == base + src@.take(i as int),
        decreases src@.len() - i,
    {
        dst.push(src[i]);
        proof {
            assert(dst@ =~= base + src@.take(i + 1));
        }
        i += 1;
    }
    proof {
        assert(src@.take(src@.len() as int) =~= src@);
    }
}

fn bytes_eq(a: &Vec<u8>, b: &Vec<u8>) -> (r: bool)
    ensures
        r == (a@ == b@),
{
    if a.len() != b.len() {
        proof {
            assert(a@ != b@);
        }
        return false;
    }
    let mut i: usize = 0;
    while i < a.len()
        invariant
            0 <= i <= a@.len(),
            a@.len() == b@.len(),
            forall|j: int| 0 <= j < i ==> a@[j] == b@[j],
        decreases a@.len() - i,
    {
        if a[i] != b[i] {
            proof {
                assert(a@[i as int] != b@[i as int]);
            }
            return false;
        }
        i += 1;
    }
    proof {
        assert(a@ =~= b@);
    }
    true
}

/// The bootstrap table as a value.
fn make_start_table() -> (r: Vec<Vec<u8>>)
    ensures
        table_view(r@) == start_table(),
        r@.len() == 257,
{
    let mut t: Vec<Vec<u8>> = Vec::new();
    let mut c: usize = 0;
    while c < 256
        invariant
            0 <= c <= 256,
            t@.len() == c,
            forall|i: int| 0 <= i < c ==> t@[i]@ == seq![i as u8],
        decreases 256 - c,
    {
        let mut e: Vec<u8> = Vec::new();
        e.push(c as u8);
        proof {
            assert(e@ =~= seq![c as u8]);
        }
        t.push(e);
        c += 1;
    }
    let mut sentinel: Vec<u8> = Vec::new();
    sentinel.push(1);
    sentinel.push(0);
    proof {
        assert(sentinel@ =~= seq![1u8, 0u8]);
    }
    t.push(sentinel);
    proof {
        assert(table_view(t@) =~= start_table());
    }
    t
}

/// Linear search for the code bound to `s`, lowest code first.
fn find_code(table: &Vec<Vec<u8>>, s: &Vec<u8>) -> (r: Option<usize>)
    ensures
        match r {
            Some(c) => c < table@.len() && table@[c as int]@ == s@,
            None => !table_has(table_view(table@), s@),
        },
{
    let mut c: usize = 0;
    while c < table.len()
        invariant
            0 <= c <= table@.len(),
            forall|j: int| 0 <= j < c ==> table@[j]@ != s@,
        decreases table@.len() - c,
    {
        if bytes_eq(&table[c], s) {
            return Some(c);
        }
        c += 1;
    }
    proof {
        assert forall|j: int| 0 <= j < table_view(table@).len() implies table_view(table@)[j]
            != s@ by {
            assert(table_view(table@)[j] == table@[j]@);
        }
    }
    None
}

/// Encodes bytes to dictionary codes, refusing to outgrow `max_codes`
/// (the number of codes a fixed word width can address).
pub fn encode(input: &Vec<u8>, max_codes: usize) -> (r: Result<Vec<u16>, CodecError>)
    requires
        max_codes <= 65536,
    ensures
        match r {
            Ok(codes) => {
                &&& enc_run(input@).table.len() <= max_codes
                &&& codes@.map_values(|c: u16| c as int) == spec_encode(input@)
                &&& forall|j: int| 0 <= j < codes@.len() ==> (codes@[j] as int) < max_codes
            },
            Err(e) => {
                &&& e == CodecError::CapacityExceeded
                &&& enc_run(input@).table.len() > max_codes
            },
        },
{
    let ghost inp = input@;
    let mut table = make_start_table();
    if max_codes < 257 {
        proof {
            lemma_lockstep(inp);
        }
        return Err(CodecError::CapacityExceeded);
    }
    let mut sym: Vec<u8> = Vec::new();
    let mut out: Vec<u16> = Vec::new();
    let mut i: usize = 0;
    proof {
        assert(inp.take(0) =~= Seq::<u8>::empty());
        assert(out@.map_values(|c: u16| c as int) =~= Seq::<int>::empty());
    }
    while i < input.len()
        invariant
            0 <= i <= inp.len(),
            input@ == inp,
            max_codes <= 65536,
            table_view(table@) == enc_run(inp.take(i as int)).table,
            sym@ == enc_run(inp.take(i as int)).sym,
            out@.map_values(|c: u16| c as int) == enc_run(inp.take(i as int)).emitted,
            table@.len() <= max_codes,
            forall|j: int| 0 <= j < out@.len() ==> (out@[j] as int) < max_codes,
        decreases inp.len() - i,
    {
        let ghost st0 = enc_run(inp.take(i as int));
        proof {
            lemma_lockstep(inp.take(i as int));
            lemma_enc_take_step(inp, i as int);
        }
        let b = input[i];
        let mut ext = copy_bytes(&sym);
        ext.push(b);
        proof {
            assert(ext@ == st0.sym.push(b));
        }
        match find_code(&table, &ext) {
            Some(hit) => {
                proof {
                    assert(table_view(table@)[hit as int] == ext@);
                    assert(table_has(st0.table, ext@));
                }
                sym = ext;
            },
            None => {
                proof {
                    assert(!table_has(st0.table, ext@)) by {
                        assert(table_view(table@) == st0.table);
                    }
                    if st0.sym.len() == 0 {
                        assert(st0.table[b as int] == start_table()[b as int]);
                        assert(st0.table[b as int] == seq![b]);
                        assert(ext@ =~= seq![b]);
                        assert(false);
                    }
                    assert(i as int > 0 || inp.take(i as int).len() > 0);
                    assert(table_has(st0.table, st0.sym));
                }
                let c = match find_code(&table, &sym) {
                    Some(c) => c,
                    None => {
                        proof {
                            assert(false);
                        }
                        0
                    },
                };
                proof {
                    // the tables bind each sequence once, so the found code
                    // is the code
                    let cc = table_code(st0.table, st0.sym);
                    assert(0 <= cc < st0.table.len() && st0.table[cc] == st0.sym);
                    assert(st0.table[c as int] == st0.sym);
                    if c as int != cc {
                        assert(st0.table[c as int] != st0.table[cc]);
                        assert(false);
                    }
                }
                if table.len() >= max_codes {
                    proof {
                        assert(enc_run(inp.take(i + 1)).table.len() > max_codes);
                        lemma_enc_table_len_monotone(inp, i + 1);
                    }
                    return Err(CodecError::CapacityExceeded);
                }
                out.push(c as u16);
                table.push(ext);
                let mut fresh: Vec<u8> = Vec::new();
                fresh.push(b);
                sym = fresh;
                proof {
                    let st1 = enc_run(inp.take(i + 1));
                    assert(table_view(table@) =~= st1.table);
                    assert(sym@ =~= st1.sym);
                    assert(out@.map_values(|x: u16| x as int) =~= st1.emitted);
                }
            },
        }
        i += 1;
    }
    proof {
        assert(inp.take(inp.len() as int) =~= inp);
    }
    let ghost st = enc_run(inp);
    if sym.len() > 0 {
        proof {
            lemma_lockstep(inp);
        }
        let c = match find_code(&table, &sym) {
            Some(c) => c,
            None => {
                proof {
                    assert(false);
                }
                0
            },
        };
        proof {
            let cc = table_code(st.table, st.sym);
            assert(0 <= cc < st.table.len() && st.table[cc] == st.sym);
            assert(st.table[c as int] == st.sym);
            if c as int != cc {
                assert(st.table[c as int] != st.table[cc]);
                assert(false);
            }
        }
        out.push(c as u16);
        proof {
            assert(out@.map_values(|x: u16| x as int) =~= spec_encode(inp));
        }
    } else {
        proof {
            assert(spec_encode(inp) == st.emitted);
        }
    }
    Ok(out)
}


/// Decodes dictionary codes back to bytes, mirroring the encoder's table.
/// A code that is neither bound nor the next free code is a gap in the
/// stream and is refused.
pub fn decode(codes: &Vec<u16>) -> (r: Result<Vec<u8>, CodecError>)
    ensures
        match r {
            Ok(out) => spec_decode(codes@.map_values(|c: u16| c as int)) == Some(out@),
            Err(e) => {
                &&& e == CodecError::InvalidCode
                &&& spec_decode(codes@.map_values(|c: u16| c as int)) is None
            },
        },
{
    let ghost cs = codes@.map_values(|c: u16| c as int);
    if codes.len() == 0 {
        let out: Vec<u8> = Vec::new();
        proof {
            assert(out@ =~= Seq::<u8>::empty());
        }
        return Ok(out);
    }
    let mut table = make_start_table();
    proof {
        lemma_start_table_wf();
        assert forall|j: int| 0 <= j < table@.len() implies table@[j]@.len() >= 1 by {
            assert(table_view(table@)[j] == table@[j]@);
            assert(start_table()[j].len() >= 1);
        }
    }
    let c0 = codes[0];
    if (c0 as usize) >= table.len() {
        proof {
            assert(cs.take(1).len() == 1);
            assert(cs.take(1)[0] == c0 as int);
            assert(dec_run(cs.take(1)) is None);
            lemma_dec_none_extends(cs, 1);
        }
        return Err(CodecError::InvalidCode);
    }
    let mut sym = copy_bytes(&table[c0 as usize]);
    let mut out = copy_bytes(&sym);
    proof {
        assert(cs.take(1).len() == 1);
        assert(cs.take(1)[0] == c0 as int);
        assert(table_view(table@)[c0 as int] == table@[c0 as int]@);
        assert(dec_run(cs.take(1)) == dec_start(c0 as int));
        let st1 = dec_run(cs.take(1)).unwrap();
        assert(st1.table == start_table());
        assert(st1.sym == sym@ && st1.produced == out@);
    }
    let mut i: usize = 1;
    while i < codes.len()
        invariant
            1 <= i <= cs.len(),
            cs == codes@.map_values(|c: u16| c as int),
            codes@.len() == cs.len(),
            dec_run(cs.take(i as int)) is Some,
            table_view(table@) == dec_run(cs.take(i as int)).unwrap().table,
            sym@ == dec_run(cs.take(i as int)).unwrap().sym,
            out@ == dec_run(cs.take(i as int)).unwrap().produced,
            forall|j: int| 0 <= j < table@.len() ==> table@[j]@.len() >= 1,
            sym@.len() >= 1,
        decreases cs.len() - i,
    {
        let ghost st = dec_run(cs.take(i as int)).unwrap();
        proof {
            lemma_dec_take_step(cs, i as int);
            assert(cs[i as int] == codes@[i as int] as int);
        }
        let cw = codes[i];
        let c = cw as usize;
        if c < table.len() {
            let entry = copy_bytes(&table[c]);
            proof {
                assert(table_view(table@)[c as int] == entry@);
                assert(st.table[c as int] == entry@);
                assert(entry@.len() >= 1);
            }
            let mut grown = copy_bytes(&sym);
            grown.push(entry[0]);
            table.push(grown);
            append_bytes(&mut out, &entry);
            sym = entry;
            proof {
                let st1 = dec_run(cs.take(i + 1)).unwrap();
                assert(table_view(table@) =~= st1.table);
            }
        } else if c == table.len() {
            let first = sym[0];
            let mut entry = copy_bytes(&sym);
            entry.push(first);
            table.push(copy_bytes(&entry));
            append_bytes(&mut out, &entry);
            sym = entry;
            proof {
                let st1 = dec_run(cs.take(i + 1)).unwrap();
                assert(table_view(table@) =~= st1.table);
            }
        } else {
            proof {
                assert(cs[i as int] > st.table.len());
                assert(dec_run(cs.take(i + 1)) is None);
                lemma_dec_none_extends(cs, i + 1);
            }
            return Err(CodecError::InvalidCode);
        }
        i += 1;
    }
    proof {
        assert(cs.take(cs.len() as int) =~= cs);
    }
    Ok(out)
}


/// The full pipeline: encode to codes, then pack the codes `word_size` bits
/// each. The width must leave room for the table (so in practice 9 to 16);
/// a run whose table would outgrow the width's code range is refused.
pub fn compress(input: &Vec<u8>, word_size: usize) -> (r: Result<Vec<u8>, CodecError>)
    ensures
        match r {
            Ok(bytes) => {
                &&& 1 <= word_size <= 16
                &&& enc_run(input@).table.len() <= pow2(word_size as nat)
                &&& bytes@ == pack_spec(
                    spec_encode(input@).map_values(|c: int| c as u16),
                    word_size as nat,
                )
            },
            Err(e) => {
                ||| (e == CodecError::InvalidWidth && !(1 <= word_size <= 16))
                ||| (e == CodecError::CapacityExceeded && 1 <= word_size <= 16 && enc_run(
                    input@,
                ).table.len() > pow2(word_size as nat))
            },
        },
{
    let ghost wsn = word_size as nat;
    let mut stream = match BitStream::write_stream(word_size) {
        Ok(s) => s,
        Err(e) => {
            return Err(e);
        },
    };
    let ws: usize = word_size;
    let max: usize = 1usize << ws;
    proof {
        lemma_pow2_shift(wsn);
        assert(ws <= 16 ==> (1usize << ws) == ((1u32 << (ws as u32)) as usize)) by (bit_vector);
        assert(max as nat == pow2(wsn));
        lemma_pow2_le_65536(wsn);
    }
    let codes = match encode(input, max) {
        Ok(c) => c,
        Err(e) => {
            return Err(e);
        },
    };
    let ghost cseq = codes@;
    let mut j: usize = 0;
    proof {
        assert(cseq.take(0) =~= Seq::<u16>::empty());
        assert(stream.written() == words_bits(cseq.take(0), wsn));
    }
    while j < codes.len()
        invariant
            0 <= j <= cseq.len(),
            codes@ == cseq,
            stream.write_wf(),
            stream.word_size == word_size,
            wsn == word_size as nat,
            (max as nat) == pow2(wsn),
            forall|k: int| 0 <= k < cseq.len() ==> (cseq[k] as int) < max,
            stream.written() == words_bits(cseq.take(j as int), wsn),
        decreases cseq.len() - j,
    {
        let ghost before = stream.written();
        let word = codes[j];
        match stream.write(word) {
            Ok(()) => {},
            Err(_) => {
                proof {
                    assert(false);
                }
                return Err(CodecError::WordTooLarge);
            },
        }
        proof {
            assert(cseq.take(j + 1).drop_last() =~= cseq.take(j as int));
            assert(cseq.take(j + 1).last() == word);
            assert(words_bits(cseq.take(j + 1), wsn) == words_bits(cseq.take(j as int), wsn)
                + word_bits(word, wsn));
        }
        j += 1;
    }
    proof {
        assert(cseq.take(cseq.len() as int) =~= cseq);
    }
    let ghost all_bits = words_bits(cseq, wsn);
    match stream.flush() {
        Ok(()) => {},
        Err(_) => {
            proof {
                assert(false);
            }
            return Err(CodecError::WordTooLarge);
        },
    }
    let bytes = stream.into_bytes();
    proof {
        let padded = pad_bits(all_bits);
        assert(bytes_bits(bytes@) == padded);
        assert(padded.len() % 8 == 0) by (nonlinear_arith)
            requires
                padded.len() == all_bits.len() + crate::bits::pad_len(all_bits.len() as int),
        ;
        crate::bits::lemma_bits_of_bytes_of_bits(padded);
        let packed = pack_spec(cseq, wsn);
        assert(packed.len() * 8 == padded.len()) by {
            vstd::arithmetic::div_mod::lemma_fundamental_div_mod(padded.len() as int, 8);
        }
        assert(bytes@.len() == packed.len());
        lemma_bytes_bits_inj(bytes@, packed);
        let mapped = spec_encode(input@).map_values(|c: int| c as u16);
        assert forall|k: int| 0 <= k < cseq.len() implies mapped[k] == cseq[k] by {
            assert(cseq.map_values(|c: u16| c as int)[k] == cseq[k] as int);
        }
        assert(cseq =~= mapped);
    }
    Ok(bytes)
}

/// The reverse pipeline: unpack `word_size`-bit codes from the packed bytes
/// and decode them. Byte padding can make a trailing zero code visible to
/// the decoder, exactly as characterized by the packed-bit round trip.
pub fn decompress(bytes: &Vec<u8>, word_size: usize) -> (r: Result<Vec<u8>, CodecError>)
    requires
        bytes@.len() * 8 + 16 <= usize::MAX,
    ensures
        match r {
            Ok(out) => {
                &&& 1 <= word_size <= 16
                &&& spec_decode(
                    unpack_spec(bytes@, word_size as nat).map_values(|c: u16| c as int),
                ) == Some(out@)
            },
            Err(e) => {
                ||| (e == CodecError::InvalidWidth && !(1 <= word_size <= 16))
                ||| (e == CodecError::InvalidCode && 1 <= word_size <= 16 && spec_decode(
                    unpack_spec(bytes@, word_size as nat).map_values(|c: u16| c as int),
                ) is None)
            },
        },
{
    let ghost wsn = word_size as nat;
    let data = copy_bytes(bytes);
    let mut stream = match BitStream::read_stream(data, word_size) {
        Ok(s) => s,
        Err(e) => {
            return Err(e);
        },
    };
    let ghost total = num_words(bytes@.len(), wsn) as int;
    let ghost unpacked = unpack_spec(bytes@, wsn);
    let mut words: Vec<u16> = Vec::new();
    let mut more = true;
    proof {
        assert(words@ =~= unpacked.take(0));
    }
    while more
        invariant
            stream.read_wf(),
            stream.data@ == bytes@,
            stream.word_size == word_size,
            wsn == word_size as nat,
            total == num_words(bytes@.len(), wsn),
            unpacked == unpack_spec(bytes@, wsn),
            0 <= stream.words_read() <= total,
            words@ == unpacked.take(stream.words_read()),
            !more ==> stream.words_read() == total,
        decreases total - stream.words_read() + (if more {
            1int
        } else {
            0int
        }),
    {
        let ghost k = stream.words_read();
        match stream.next() {
            Some(x) => {
                words.push(x);
                proof {
                    assert(x == unpacked[k]);
                    assert(words@ =~= unpacked.take(k + 1));
                }
            },
            None => {
                more = false;
            },
        }
    }
    proof {
        assert(unpacked.len() == total);
        assert(words@ =~= unpacked);
    }
    decode(&words)
}


/// The empty boundary: encoding no bytes emits no codes, and decoding no
/// codes produces no bytes.
pub proof fn lemma_empty_boundary()
    ensures
        spec_encode(Seq::<u8>::empty()) == Seq::<int>::empty(),
        spec_decode(Seq::<int>::empty()) == Some(Seq::<u8>::empty()),
{
    assert(spec_encode(Seq::<u8>::empty()) =~= Seq::<int>::empty());
}


/// The whole pipeline, spec to spec: packing an encoding and unpacking it
/// again decodes to the original input — plus, when the codes do not end on
/// a byte boundary, the single byte 0, the entry of the zero code that the
/// byte padding makes visible.
pub proof fn lemma_pipeline_round_trip(input: Seq<u8>, codes: Seq<u16>, w: nat)
    requires
        8 <= w <= 16,
        codes.map_values(|c: u16| c as int) == spec_encode(input),
        forall|i: int| 0 <= i < codes.len() ==> (codes[i] as nat) < pow2(w),
    ensures
        spec_decode(unpack_spec(pack_spec(codes, w), w).map_values(|c: u16| c as int)) == if (
        codes.len() * w) % 8 == 0 {
            Some(input)
        } else {
            Some(input.push(0u8))
        },
{
    crate::bits::lemma_pack_unpack_wide(codes, w);
    lemma_round_trip(input);
    if (codes.len() * w) % 8 == 0 {
        assert(unpack_spec(pack_spec(codes, w), w) == codes);
    } else {
        let seen = codes.push(0u16);
        assert(unpack_spec(pack_spec(codes, w), w) == seen);
        let cs = seen.map_values(|c: u16| c as int);
        assert(cs =~= spec_encode(input).push(0));
        // a trailing zero code is never silent: codes exist, so input does
        assert(codes.len() > 0) by {
            if codes.len() == 0 {
                assert((codes.len() * w) % 8 == 0) by (nonlinear_arith)
                    requires
                        codes.len() == 0,
                ;
            }
        }
        assert(input.len() > 0) by {
            if input.len() == 0 {
                assert(enc_run(input).emitted.len() == 0);
                assert(spec_encode(input).len() == 0);
            }
        }
        lemma_lockstep(input);
        lemma_decode_encode(input);
        let d = dec_run(spec_encode(input)).unwrap();
        assert(d.table == enc_run(input).table);
        assert(table_wf(d.table));
        assert(cs.len() >= 2);
        assert(dec_run(cs) == dec_step(d, 0)) by {
            assert(cs.drop_last() =~= spec_encode(input));
            assert(cs.last() == 0);
        }
        assert(d.table[0] == start_table()[0]);
        assert(d.table[0] == seq![0u8]);
        let d1 = dec_run(cs).unwrap();
        assert(d1.produced == d.produced + seq![0u8]);
        assert(d1.produced =~= input.push(0u8));
    }
}

} // verus!
