//! `.doc`, Word 97-2003.
//!
//! Word does not store its text contiguously. The `WordDocument` stream holds
//! character data in arbitrarily ordered runs, and a piece table in the
//! companion table stream says which run belongs where in the document.
use super::{clean, cleaned, decodable, decode_run, run_text, stream, stream_of, MAX_TEXT_BYTES};
use crate::bytes::{get_range, le16, le32, range, u16_at, u32_at, u8_at};
use crate::text::{blank, byte_len, err_view, is_blank, joined, text_view, utf8_len};
use vstd::prelude::*;

verus! {

/// Offset of the flags word in the FIB base, whose bit 9 selects which of the
/// two table streams is live.
pub const FIB_FLAGS: usize = 0x000A;

pub const FLAG_WHICH_TBL_STM: u16 = 0x0200;

/// The FIB base is fixed-length; the variable-length arrays follow it.
pub const FIB_BASE_LEN: usize = 32;

/// Index of the `fcClx`/`lcbClx` pair within `fibRgFcLcb97`, an array of
/// (fc, lcb) pairs.
pub const CLX_PAIR_INDEX: usize = 33;

/// `Pcdt`, the piece-table element of a CLX.
pub const CLXT_PCDT: u8 = 0x02;

/// `Prc`, a formatting element that precedes the piece table.
pub const CLXT_PRC: u8 = 0x01;

/// A piece descriptor is 8 bytes; each CP in the accompanying array is 4.
pub const PCD_LEN: usize = 8;

pub const CP_LEN: usize = 4;

/// Set in a `PCD`'s `fc` field when the piece is 8-bit rather than UTF-16.
pub const FC_COMPRESSED: u32 = 0x4000_0000;

pub const FC_ADDRESS_MASK: u32 = 0x3FFF_FFFF;

/// One run of characters in the `WordDocument` stream.
#[derive(Debug, Clone, Copy, PartialEq, Eq, Structural)]
pub struct Piece {
    pub start: usize,
    pub end: usize,
    pub compressed: bool,
}

/// Where the FIB says the CLX is: its offset and length in the table stream.
/// The sections before the entry are self-describing, each preceded by its
/// own count.
pub open spec fn clx_entry(doc: Seq<u8>) -> Result<(usize, usize), Seq<char>> {
    match le16(doc, FIB_BASE_LEN as int) {
        None => Err("truncated FIB (csw)"@),
        Some(csw) => {
            let after_rgw = FIB_BASE_LEN + 2 + csw * 2;
            match le16(doc, after_rgw) {
                None => Err("truncated FIB (cslw)"@),
                Some(cslw) => {
                    let after_rglw = after_rgw + 2 + cslw * 4;
                    match le16(doc, after_rglw) {
                        None => Err("truncated FIB (cbRgFcLcb)"@),
                        Some(pairs) => {
                            let entry = after_rglw + 2 + CLX_PAIR_INDEX * 8;
                            if pairs <= CLX_PAIR_INDEX {
                                Err("FIB has no fcClx entry (pre-Word 97 file?)"@)
                            } else {
                                match (le32(doc, entry), le32(doc, entry + 4)) {
                                    (None, _) => Err("truncated FIB (fcClx)"@),
                                    (Some(_), None) => Err("truncated FIB (lcbClx)"@),
                                    (Some(fc), Some(lcb)) => if lcb == 0 {
                                        Err("document has an empty piece table"@)
                                    } else {
                                        Ok((fc as usize, lcb as usize))
                                    },
                                }
                            }
                        },
                    }
                },
            }
        },
    }
}

/// Walk the FIB's variable-length sections to find `fcClx`/`lcbClx`.
pub(crate) fn clx_location(doc: &[u8]) -> (r: Result<(usize, usize), String>)
    ensures
        err_view(r) == clx_entry(doc@),
{
    let csw: usize = match u16_at(doc, FIB_BASE_LEN) {
        Some(v) => v as usize,
        None => return Err("truncated FIB (csw)".to_owned()),
    };
    let after_rgw: usize = FIB_BASE_LEN + 2 + csw * 2;
    let cslw: usize = match u16_at(doc, after_rgw) {
        Some(v) => v as usize,
        None => return Err("truncated FIB (cslw)".to_owned()),
    };
    let after_rglw: usize = after_rgw + 2 + cslw * 4;
    let pairs: usize = match u16_at(doc, after_rglw) {
        Some(v) => v as usize,
        None => return Err("truncated FIB (cbRgFcLcb)".to_owned()),
    };
    if pairs <= CLX_PAIR_INDEX {
        return Err("FIB has no fcClx entry (pre-Word 97 file?)".to_owned());
    }
    let entry: usize = after_rglw + 2 + CLX_PAIR_INDEX * 8;
    let fc: usize = match u32_at(doc, entry) {
        Some(v) => v as usize,
        None => return Err("truncated FIB (fcClx)".to_owned()),
    };
    let lcb: usize = match u32_at(doc, entry + 4) {
        Some(v) => v as usize,
        None => return Err("truncated FIB (lcbClx)".to_owned()),
    };
    if lcb == 0 {
        return Err("document has an empty piece table".to_owned());
    }
    Ok((fc, lcb))
}

/// How many pieces a `PlcPcd` of this length describes: `n + 1` character
/// positions are followed by `n` descriptors.
pub open spec fn piece_count(len: int) -> int {
    (len - CP_LEN) / (CP_LEN + PCD_LEN)
}

/// The character position that opens piece `k`.
pub open spec fn cp_at(plc: Seq<u8>, k: int) -> int {
    le32(plc, k * CP_LEN)->Some_0 as int
}

/// Piece `k` of a `PlcPcd`: nothing where it holds no characters. A compressed
/// piece stores one byte per character at half its address; a wide one two
/// bytes per character at its address.
pub open spec fn piece_at(plc: Seq<u8>, k: int) -> Result<Option<Piece>, Seq<char>> {
    let chars = cp_at(plc, k + 1) - cp_at(plc, k);
    let fc = le32(plc, (piece_count(plc.len() as int) + 1) * CP_LEN + k * PCD_LEN + 2)->Some_0;
    let compressed = fc & FC_COMPRESSED != 0;
    let address = fc & FC_ADDRESS_MASK;
    let start = if compressed {
        address / 2
    } else {
        address
    };
    let bytes = if compressed {
        chars
    } else {
        chars * 2
    };
    if chars <= 0 {
        Ok(None)
    } else if bytes > usize::MAX {
        Err("piece length overflows"@)
    } else if start + bytes > usize::MAX {
        Err("piece end overflows"@)
    } else {
        Ok(Some(Piece { start: start as usize, end: (start + bytes) as usize, compressed }))
    }
}

/// The pieces with characters among the first `k`.
pub open spec fn pieces_upto(plc: Seq<u8>, k: int) -> Result<Seq<Piece>, Seq<char>>
    decreases k,
{
    if k <= 0 {
        Ok(seq![])
    } else {
        match (pieces_upto(plc, k - 1), piece_at(plc, k - 1)) {
            (Err(e), _) => Err(e),
            (Ok(_), Err(e)) => Err(e),
            (Ok(s), Ok(None)) => Ok(s),
            (Ok(s), Ok(Some(p))) => Ok(s.push(p)),
        }
    }
}

/// The pieces of a `PlcPcd`, in document order.
pub open spec fn plc_pieces(plc: Seq<u8>) -> Result<Seq<Piece>, Seq<char>> {
    if plc.len() < CP_LEN + PCD_LEN {
        Err("piece table holds no pieces"@)
    } else {
        match pieces_upto(plc, piece_count(plc.len() as int)) {
            Err(e) => Err(e),
            Ok(s) => if s.len() == 0 {
                Err("piece table holds no non-empty pieces"@)
            } else {
                Ok(s)
            },
        }
    }
}

/// A result over its elements.
pub open spec fn pieces_view(r: Result<Vec<Piece>, String>) -> Result<Seq<Piece>, Seq<char>> {
    match r {
        Ok(v) => Ok(v@),
        Err(e) => Err(e@),
    }
}

/// Decode a `PlcPcd`.
pub(crate) fn decode_plc_pcd(plc: &[u8]) -> (r: Result<Vec<Piece>, String>)
    ensures
        pieces_view(r) == plc_pieces(plc@),
{
    if plc.len() < CP_LEN + PCD_LEN {
        return Err("piece table holds no pieces".to_owned());
    }
    let n: usize = (plc.len() - CP_LEN) / (CP_LEN + PCD_LEN);
    let len: usize = plc.len();
    assert(n * 12 + 4 <= len);
    let pcd_base: usize = (n + 1) * CP_LEN;
    let mut pieces: Vec<Piece> = Vec::new();
    let mut k: usize = 0;
    while k < n
        invariant
            k <= n,
            len == plc@.len(),
            n == piece_count(len as int),
            n * 12 + 4 <= len,
            pcd_base == (n + 1) * CP_LEN,
            pieces_upto(plc@, k as int) == Ok::<_, Seq<char>>(pieces@),
            plc@.len() >= CP_LEN + PCD_LEN,
        decreases n - k,
    {
        let cp: usize = match u32_at(plc, k * CP_LEN) {
            Some(v) => v as usize,
            None => {
                assert(false);
                0
            },
        };
        let cp_next: usize = match u32_at(plc, (k + 1) * CP_LEN) {
            Some(v) => v as usize,
            None => {
                assert(false);
                0
            },
        };
        let chars: usize = if cp_next > cp {
            cp_next - cp
        } else {
            0
        };
        assert(chars == if cp_at(plc@, k + 1) > cp_at(plc@, k as int) {
            cp_at(plc@, k + 1) - cp_at(plc@, k as int)
        } else {
            0
        });
        if chars == 0 {
            k += 1;
            continue;
        }
        let fc_raw: u32 = match u32_at(plc, pcd_base + k * PCD_LEN + 2) {
            Some(v) => v,
            None => {
                assert(false);
                0
            },
        };
        let compressed: bool = fc_raw & FC_COMPRESSED != 0;
        let masked: u32 = fc_raw & FC_ADDRESS_MASK;
        let address: usize = masked as usize;
        let start: usize = if compressed {
            address / 2
        } else {
            address
        };
        let width: usize = if compressed {
            1
        } else {
            2
        };
        let bytes: usize = match chars.checked_mul(width) {
            Some(b) => b,
            None => {
                proof {
                    lemma_first_error(plc@, k as int, n as int);
                }
                return Err("piece length overflows".to_owned());
            },
        };
        let end: usize = match start.checked_add(bytes) {
            Some(e) => e,
            None => {
                proof {
                    lemma_first_error(plc@, k as int, n as int);
                }
                return Err("piece end overflows".to_owned());
            },
        };
        pieces.push(Piece { start, end, compressed });
        k += 1;
    }
    if pieces.len() == 0 {
        return Err("piece table holds no non-empty pieces".to_owned());
    }
    Ok(pieces)
}

/// The first entry that cannot be described decides the whole table.
proof fn lemma_first_error(plc: Seq<u8>, k: int, n: int)
    requires
        0 <= k < n,
        pieces_upto(plc, k) is Ok,
        piece_at(plc, k) is Err,
    ensures
        pieces_upto(plc, n) == Err::<Seq<Piece>, _>(piece_at(plc, k)->Err_0),
    decreases n,
{
    if n == k + 1 {
    } else {
        lemma_first_error(plc, k, n - 1);
    }
}

/// Two lower-case hexadecimal digits.
pub open spec fn hex2(b: u8) -> Seq<char> {
    seq![hex_digit(b / 16), hex_digit(b % 16)]
}

pub open spec fn hex_digit(d: u8) -> char {
    if d < 10 {
        (48 + d) as u32 as char
    } else {
        (87 + d) as u32 as char
    }
}

fn hex_char(d: u8) -> (c: char)
    requires
        d < 16,
    ensures
        c == hex_digit(d),
{
    if d < 10 {
        (48 + d) as char
    } else {
        (87 + d) as char
    }
}

/// The pieces of a CLX from `i` on: formatting elements are passed over, the
/// first piece table is the one.
pub open spec fn clx_pieces_from(clx: Seq<u8>, i: int) -> Result<Seq<Piece>, Seq<char>>
    decreases
        (if i < clx.len() {
            clx.len() - i
        } else {
            0
        }),
{
    if i < 0 || i >= clx.len() {
        Err("CLX ends before its piece table"@)
    } else if clx[i] == CLXT_PRC {
        match le16(clx, i + 1) {
            None => Err("truncated Prc"@),
            Some(len) => if i + 3 + len > usize::MAX {
                Err("Prc length overflows"@)
            } else {
                clx_pieces_from(clx, i + 3 + len)
            },
        }
    } else if clx[i] == CLXT_PCDT {
        match le32(clx, i + 1) {
            None => Err("truncated Pcdt"@),
            Some(len) => if i + 5 + len > usize::MAX {
                Err("Pcdt overflows"@)
            } else {
                match range(clx, i + 5, i + 5 + len) {
                    None => Err("Pcdt runs past the end of the CLX"@),
                    Some(plc) => plc_pieces(plc),
                }
            },
        }
    } else {
        Err("unknown CLX element 0x"@ + hex2(clx[i]))
    }
}

/// Locate the `Pcdt` inside the CLX and decode its `PlcPcd`.
pub(crate) fn piece_table(clx: &[u8]) -> (r: Result<Vec<Piece>, String>)
    ensures
        pieces_view(r) == clx_pieces_from(clx@, 0),
{
    let n: usize = clx.len();
    let mut i: usize = 0;
    loop
        invariant
            n == clx@.len(),
            clx_pieces_from(clx@, i as int) == clx_pieces_from(clx@, 0),
        decreases
                (if i < n {
                    n - i
                } else {
                    0
                }),
    {
        let kind: u8 = match u8_at(clx, i) {
            Some(k) => k,
            None => return Err("CLX ends before its piece table".to_owned()),
        };
        let at: usize = i + 1;
        if kind == CLXT_PRC {
            let len: usize = match u16_at(clx, at) {
                Some(v) => v as usize,
                None => return Err("truncated Prc".to_owned()),
            };
            let head: usize = i + 3;
            match head.checked_add(len) {
                Some(next) => {
                    i = next;
                },
                None => return Err("Prc length overflows".to_owned()),
            }
        } else if kind == CLXT_PCDT {
            let len: usize = match u32_at(clx, at) {
                Some(v) => v as usize,
                None => return Err("truncated Pcdt".to_owned()),
            };
            let start: usize = i + 5;
            let end: usize = match start.checked_add(len) {
                Some(e) => e,
                None => return Err("Pcdt overflows".to_owned()),
            };
            match get_range(clx, start, end) {
                Some(plc) => return decode_plc_pcd(plc),
                None => return Err("Pcdt runs past the end of the CLX".to_owned()),
            }
        } else {
            let mut e = "unknown CLX element 0x".to_owned();
            let ghost head = e@;
            e.push(hex_char(kind / 16));
            e.push(hex_char(kind % 16));
            assert(e@ =~= head + hex2(kind));
            return Err(e);
        }
    }
}

/// What the first pieces of a table add up to: the text so far, the bytes read
/// for it, and whether the walk goes on.
pub struct Decoded {
    pub out: Seq<char>,
    pub read: int,
    pub open: bool,
}

/// One more piece. The walk ends where the text or the bytes read have reached
/// the budget, and at a piece that lies outside the stream.
pub open spec fn add_piece(doc: Seq<u8>, d: Decoded, p: Piece, budget: int) -> Decoded {
    if !d.open || utf8_len(d.out) >= budget || d.read >= budget {
        Decoded { open: false, ..d }
    } else {
        match range(doc, p.start as int, p.end as int) {
            None => Decoded { open: false, ..d },
            Some(bytes) => Decoded {
                out: d.out + cleaned(run_text(bytes, !p.compressed)),
                read: d.read + bytes.len(),
                open: true,
            },
        }
    }
}

pub open spec fn decoded(doc: Seq<u8>, pieces: Seq<Piece>, budget: int) -> Decoded
    decreases pieces.len(),
{
    if pieces.len() == 0 {
        Decoded { out: seq![], read: 0, open: true }
    } else {
        add_piece(doc, decoded(doc, pieces.drop_last(), budget), pieces.last(), budget)
    }
}

/// A walk that has ended adds nothing.
proof fn lemma_closed(doc: Seq<u8>, pieces: Seq<Piece>, k: int, budget: int)
    requires
        0 <= k <= pieces.len(),
        !decoded(doc, pieces.take(k), budget).open,
    ensures
        decoded(doc, pieces, budget).out == decoded(doc, pieces.take(k), budget).out,
        !decoded(doc, pieces, budget).open,
    decreases pieces.len() - k,
{
    if k == pieces.len() {
        assert(pieces.take(k) =~= pieces);
    } else {
        assert(pieces.take(k + 1).drop_last() =~= pieces.take(k));
        lemma_closed(doc, pieces, k + 1, budget);
    }
}

/// The text of a piece table, assembled in document order. Pieces may overlap,
/// so the budget is charged for what was read as well as for what came out.
pub fn decode_pieces(doc: &[u8], pieces: &Vec<Piece>, budget: usize) -> (out: String)
    requires
        decodable(doc@.len()),
    ensures
        out@ == decoded(doc@, pieces@, budget as int).out,
{
    let mut out = String::new();
    let mut read: u128 = 0;
    let mut k: usize = 0;
    assert(out@ =~= decoded(doc@, pieces@.take(0), budget as int).out);
    while k < pieces.len()
        invariant
            k <= pieces@.len(),
            decodable(doc@.len()),
            decoded(doc@, pieces@.take(k as int), budget as int) == (Decoded {
                out: out@,
                read: read as int,
                open: true,
            }),
        decreases pieces@.len() - k,
    {
        let ghost next = pieces@.take(k + 1);
        proof {
            assert(next.drop_last() =~= pieces@.take(k as int));
            assert(next.last() == pieces@[k as int]);
        }
        if byte_len(out.as_str()) >= budget || read >= budget as u128 {
            proof {
                lemma_closed(doc@, pieces@, k + 1, budget as int);
            }
            return out;
        }
        let piece = pieces[k];
        match get_range(doc, piece.start, piece.end) {
            None => {
                proof {
                    lemma_closed(doc@, pieces@, k + 1, budget as int);
                }
                return out;
            },
            Some(bytes) => {
                let text = decode_run(bytes, !piece.compressed);
                clean(text.as_str(), &mut out);
                read = read + bytes.len() as u128;
            },
        }
        k += 1;
    }
    assert(pieces@.take(pieces@.len() as int) =~= pieces@);
    out
}

/// The piece table that the FIB of `doc` points to in `table`.
pub open spec fn document_pieces(doc: Seq<u8>, table: Seq<u8>) -> Result<Seq<Piece>, Seq<char>> {
    match clx_entry(doc) {
        Err(e) => Err(e),
        Ok((fc, lcb)) => if fc + lcb > usize::MAX {
            Err("CLX length overflows"@)
        } else {
            match range(table, fc as int, fc + lcb) {
                None => Err("CLX runs past the end of the table stream"@),
                Some(clx) => clx_pieces_from(clx, 0),
            }
        },
    }
}

/// The text of a document from its two streams; a document without any is an
/// error.
pub open spec fn streams_text(doc: Seq<u8>, table: Seq<u8>, budget: int) -> Result<
    Seq<char>,
    Seq<char>,
> {
    match document_pieces(doc, table) {
        Err(e) => Err(e),
        Ok(pieces) => {
            let out = decoded(doc, pieces, budget).out;
            if blank(out) {
                Err("no text found in the piece table"@)
            } else {
                Ok(out)
            }
        },
    }
}

/// The text of a document whose streams are in hand.
pub fn extract_streams(doc: &[u8], table: &[u8], budget: usize) -> (r: Result<String, String>)
    requires
        decodable(doc@.len()),
    ensures
        text_view(r) == streams_text(doc@, table@, budget as int),
{
    let (fc, lcb): (usize, usize) = match clx_location(doc) {
        Ok(at) => at,
        Err(e) => return Err(e),
    };
    let end: usize = match fc.checked_add(lcb) {
        Some(e) => e,
        None => return Err("CLX length overflows".to_owned()),
    };
    let clx = match get_range(table, fc, end) {
        Some(c) => c,
        None => return Err("CLX runs past the end of the table stream".to_owned()),
    };
    let pieces = match piece_table(clx) {
        Ok(p) => p,
        Err(e) => return Err(e),
    };
    let out = decode_pieces(doc, &pieces, budget);
    if is_blank(out.as_str()) {
        return Err("no text found in the piece table".to_owned());
    }
    Ok(out)
}

/// Which of the two table streams the FIB refers to. Word rewrites them
/// alternately; the other one is left from an earlier save.
pub open spec fn table_name(flags: u16) -> Seq<char> {
    if flags & FLAG_WHICH_TBL_STM != 0 {
        "1Table"@
    } else {
        "0Table"@
    }
}

/// The text of a `.doc`.
pub open spec fn document_text(container: Seq<u8>) -> Result<Seq<char>, Seq<char>> {
    match stream_of(container, "WordDocument"@) {
        None => Err("no WordDocument stream"@),
        Some(doc) => match le16(doc, FIB_FLAGS as int) {
            None => Err("truncated FIB"@),
            Some(flags) => match stream_of(container, table_name(flags)) {
                None => Err("no "@ + table_name(flags) + " stream (Word 6/95 file?)"@),
                Some(table) => streams_text(doc, table, MAX_TEXT_BYTES as int),
            },
        },
    }
}

pub fn extract(container: &[u8]) -> (r: Result<String, String>)
    ensures
        text_view(r) == document_text(container@),
{
    let doc = match stream(container, "WordDocument") {
        Some(d) => d,
        None => return Err("no WordDocument stream".to_owned()),
    };
    let flags: u16 = match u16_at(doc.as_slice(), FIB_FLAGS) {
        Some(f) => f,
        None => return Err("truncated FIB".to_owned()),
    };
    let name = if flags & FLAG_WHICH_TBL_STM != 0 {
        "1Table"
    } else {
        "0Table"
    };
    let table = match stream(container, name) {
        Some(t) => t,
        None => {
            let e = joined(joined("no ", name).as_str(), " stream (Word 6/95 file?)");
            return Err(e);
        },
    };
    extract_streams(doc.as_slice(), table.as_slice(), MAX_TEXT_BYTES)
}

/// What is read never passes the budget by a whole stream: the walk stops at
/// the first piece after the budget is spent.
pub proof fn reading_stops_at_the_budget(doc: Seq<u8>, pieces: Seq<Piece>, budget: int)
    requires
        budget > 0,
    ensures
        decoded(doc, pieces, budget).read < budget + doc.len(),
    decreases pieces.len(),
{
    if pieces.len() > 0 {
        reading_stops_at_the_budget(doc, pieces.drop_last(), budget);
    }
}

/// The bytes that the pieces of a table cover, each counted as often as it is
/// pointed at.
pub open spec fn covered(pieces: Seq<Piece>) -> int
    decreases pieces.len(),
{
    if pieces.len() == 0 {
        0
    } else {
        covered(pieces.drop_last()) + (pieces.last().end - pieces.last().start)
    }
}

/// Everything that the pieces point at, cleaned and in order.
pub open spec fn whole_text(doc: Seq<u8>, pieces: Seq<Piece>) -> Seq<char>
    decreases pieces.len(),
{
    if pieces.len() == 0 {
        seq![]
    } else {
        let p = pieces.last();
        whole_text(doc, pieces.drop_last()) + cleaned(
            run_text(doc.subrange(p.start as int, p.end as int), !p.compressed),
        )
    }
}

/// A table that fits inside the budget is extracted whole: the brake never
/// fires early.
pub proof fn a_table_within_the_budget_is_whole(doc: Seq<u8>, pieces: Seq<Piece>, budget: int)
    requires
        forall|k: int|
            0 <= k < pieces.len() ==> (#[trigger] pieces[k]).start <= pieces[k].end <= doc.len(),
        covered(pieces.drop_last()) < budget || pieces.len() == 0,
        forall|k: int|
            0 <= k < pieces.len() ==> utf8_len(#[trigger] whole_text(doc, pieces.take(k))) < budget,
    ensures
        decoded(doc, pieces, budget) == (Decoded {
            out: whole_text(doc, pieces),
            read: covered(pieces),
            open: true,
        }),
    decreases pieces.len(),
{
    if pieces.len() > 0 {
        let rest = pieces.drop_last();
        assert(pieces[pieces.len() - 1].start <= pieces[pieces.len() - 1].end);
        assert forall|k: int| 0 <= k < rest.len() implies (#[trigger] rest[k]).start <= rest[k].end
            <= doc.len() by {
            assert(rest[k] == pieces[k]);
        }
        assert forall|k: int| 0 <= k < rest.len() implies utf8_len(
            #[trigger] whole_text(doc, rest.take(k)),
        ) < budget by {
            assert(rest.take(k) =~= pieces.take(k));
        }
        if rest.len() > 0 {
            assert(rest.last() == pieces[rest.len() - 1]);
        }
        a_table_within_the_budget_is_whole(doc, rest, budget);
        assert(pieces.take(pieces.len() - 1) =~= rest);
        assert(utf8_len(whole_text(doc, pieces.take(pieces.len() - 1))) < budget);
    }
}

/// A piece covers its characters: one byte each from half its address where it is
/// compressed, two bytes each from its address where it is not, and a piece
/// without characters is none.
pub proof fn a_piece_covers_its_characters(
    plc: Seq<u8>,
    k: int,
    address: u32,
    compressed: bool,
    fc: u32,
    chars: int,
)
    requires
        0 <= k < piece_count(plc.len() as int),
        address < 0x4000_0000,
        fc == address + (if compressed {
            0x4000_0000int
        } else {
            0
        }),
        le32(plc, (piece_count(plc.len() as int) + 1) * 4 + k * 8 + 2) == Some(fc),
        chars == le32(plc, 4 * k + 4)->Some_0 - le32(plc, 4 * k)->Some_0,
        0x4000_0000 + 2 * chars <= usize::MAX,
    ensures
        chars <= 0 ==> piece_at(plc, k) == Ok::<Option<Piece>, Seq<char>>(None),
        chars > 0 ==> (piece_at(plc, k) matches Ok(Some(p)) && {
            &&& p.compressed == compressed
            &&& compressed ==> p.start == address / 2 && p.end == p.start + chars
            &&& !compressed ==> p.start == address && p.end == p.start + 2 * chars
        }),
{
    if compressed {
        assert(fc & 0x4000_0000 != 0 && fc & 0x3FFF_FFFF == address) by (bit_vector)
            requires
                fc == address + 0x4000_0000,
                address < 0x4000_0000,
        ;
    } else {
        assert(fc & 0x4000_0000 == 0 && fc & 0x3FFF_FFFF == address) by (bit_vector)
            requires
                fc == address,
                address < 0x4000_0000,
        ;
    }
    assert(cp_at(plc, k) == le32(plc, 4 * k)->Some_0);
    assert(cp_at(plc, k + 1) == le32(plc, 4 * k + 4)->Some_0);
}

/// The table of a document holds each of its pieces with characters, in the order
/// of the characters, and nothing else.
pub proof fn every_piece_is_in_the_table(plc: Seq<u8>, n: int, k: int, p: Piece)
    requires
        pieces_upto(plc, n) is Ok,
    ensures
        0 <= k < n && piece_at(plc, k) == Ok::<Option<Piece>, Seq<char>>(Some(p)) ==> pieces_upto(
            plc,
            n,
        )->Ok_0.contains(p),
        0 <= k <= n ==> pieces_upto(plc, k) is Ok && pieces_upto(plc, k)->Ok_0.is_prefix_of(
            pieces_upto(plc, n)->Ok_0,
        ),
        pieces_upto(plc, n)->Ok_0.contains(p) ==> exists|j: int|
            0 <= j < n && #[trigger] piece_at(plc, j) == Ok::<Option<Piece>, Seq<char>>(Some(p)),
    decreases n,
{
    let all = pieces_upto(plc, n)->Ok_0;
    assert(all =~= all.subrange(0, all.len() as int));
    if n > 0 {
        let before = pieces_upto(plc, n - 1)->Ok_0;
        every_piece_is_in_the_table(plc, n - 1, k, p);
        assert(before =~= all.subrange(0, before.len() as int));
        if before.contains(p) {
            let i = choose|i: int| 0 <= i < before.len() && before[i] == p;
            assert(all[i] == p);
        }
        if piece_at(plc, n - 1) == Ok::<Option<Piece>, Seq<char>>(Some(p)) {
            assert(all[before.len() as int] == p);
        }
        if all.contains(p) {
            let i = choose|i: int| 0 <= i < all.len() && all[i] == p;
            if i < before.len() {
                assert(before[i] == p);
            } else {
                assert(piece_at(plc, n - 1) == Ok::<Option<Piece>, Seq<char>>(Some(p)));
            }
        }
        if 0 <= k < n {
            let front = pieces_upto(plc, k)->Ok_0;
            assert forall|i: int| 0 <= i < front.len() implies front[i] == all[i] by {
                assert(before.subrange(0, front.len() as int)[i] == before[i]);
            }
            assert(front =~= all.subrange(0, front.len() as int));
        }
    }
}

/// Within the budget a piece adds its own text, cleaned, behind what is there:
/// windows-1252 where it is compressed and UTF-16 where it is not. A piece outside
/// the stream ends the text.
pub proof fn a_piece_adds_its_text(doc: Seq<u8>, d: Decoded, p: Piece, budget: int)
    requires
        d.open,
        utf8_len(d.out) < budget,
        d.read < budget,
    ensures
        ({
            let e = add_piece(doc, d, p, budget);
            if p.start <= p.end <= doc.len() {
                let bytes = doc.subrange(p.start as int, p.end as int);
                &&& e.open
                &&& e.read == d.read + (p.end - p.start)
                &&& p.compressed ==> e.out == d.out + cleaned(super::windows_1252_text(bytes))
                &&& !p.compressed ==> e.out == d.out + cleaned(super::wide_text(bytes))
            } else {
                !e.open && e.out == d.out
            }
        }),
{
}

/// The table stream in use is the one that bit nine of the flags names.
pub proof fn the_flags_name_the_live_table(flags: u16)
    ensures
        flags as int / 512 % 2 == 1 ==> table_name(flags) == "1Table"@,
        flags as int / 512 % 2 == 0 ==> table_name(flags) == "0Table"@,
{
    assert(flags & 0x0200 != 0 <==> flags / 512 % 2 == 1) by (bit_vector);
}

/// The header's sections are passed by their own counts: whatever these are, the
/// piece table's place and length are the thirty-fourth pair of the last section.
pub proof fn the_piece_table_is_the_pair_it_should_be(
    doc: Seq<u8>,
    shorts: u16,
    longs: u16,
    pairs: u16,
    at: int,
    fc: u32,
    lcb: u32,
)
    requires
        le16(doc, 32) == Some(shorts),
        le16(doc, 34 + 2 * shorts) == Some(longs),
        le16(doc, 36 + 2 * shorts + 4 * longs) == Some(pairs),
        at == 38 + 2 * shorts + 4 * longs + 33 * 8,
        le32(doc, at) == Some(fc),
        le32(doc, at + 4) == Some(lcb),
    ensures
        clx_entry(doc) is Ok <==> pairs > 33 && lcb > 0,
        clx_entry(doc) matches Ok(e) ==> e.0 == fc && e.1 == lcb,
{
}

/// Formatting before the piece table is passed over, and the first piece table is
/// the one that is read.
pub proof fn formatting_is_passed_over(clx: Seq<u8>, i: int, len: int)
    requires
        0 <= i < clx.len() <= usize::MAX,
        0 <= len,
    ensures
        clx[i] == 1 && le16(clx, i + 1) is Some && len == le16(clx, i + 1)->Some_0 && i + 3 + len
            <= clx.len() ==> clx_pieces_from(clx, i) == clx_pieces_from(clx, i + 3 + len),
        clx[i] == 2 && le32(clx, i + 1) is Some && len == le32(clx, i + 1)->Some_0 && i + 5 + len
            <= clx.len() ==> clx_pieces_from(clx, i) == plc_pieces(
            clx.subrange(i + 5, i + 5 + len),
        ),
{
}

/// A document's text is what its pieces decode to, and it is an error where that
/// is blank or the pieces cannot be had.
pub proof fn a_document_is_the_text_of_its_pieces(doc: Seq<u8>, table: Seq<u8>, budget: int)
    ensures
        streams_text(doc, table, budget) matches Ok(t) ==> !blank(t) && document_pieces(
            doc,
            table,
        ) is Ok && t == decoded(doc, document_pieces(doc, table)->Ok_0, budget).out,
        document_pieces(doc, table) matches Ok(p) && !blank(decoded(doc, p, budget).out)
            ==> streams_text(doc, table, budget) is Ok,
{
}

/// A piece table is usable exactly where its entries can be read and one of them
/// holds characters.
pub proof fn one_piece_makes_a_table(plc: Seq<u8>)
    ensures
        plc_pieces(plc) matches Ok(s) ==> s.len() > 0 && plc.len() >= 12 && pieces_upto(
            plc,
            piece_count(plc.len() as int),
        ) == Ok::<Seq<Piece>, Seq<char>>(s),
        plc.len() >= 12 ==> (pieces_upto(plc, piece_count(plc.len() as int)) matches Ok(s)
            && s.len() > 0 ==> plc_pieces(plc) is Ok),
{
}

/// A byte is told in two hexadecimal digits, the high one first, none of them a
/// capital.
pub proof fn a_byte_is_two_hexadecimal_digits(b: u8)
    ensures
        hex2(b).len() == 2,
        crate::text::digit(hex2(b)[0], 16) == Some((b / 16) as int),
        crate::text::digit(hex2(b)[1], 16) == Some((b % 16) as int),
        crate::text::lower(hex2(b)) == hex2(b),
{
    lemma_hex_digit(b / 16);
    lemma_hex_digit(b % 16);
    assert(crate::text::lower(hex2(b)) =~= hex2(b));
}

proof fn lemma_hex_digit(d: u8)
    requires
        d < 16,
    ensures
        crate::text::digit(hex_digit(d), 16) == Some(d as int),
        crate::text::lower_char(hex_digit(d)) == hex_digit(d),
{
    let c = hex_digit(d);
    if d < 10 {
        assert(c as u32 == 48 + d);
    } else {
        assert(c as u32 == 87 + d);
    }
}

/// The piece table is looked for from the first byte of what the document points
/// to: where that begins with the table's mark, its length follows, and then the
/// table.
pub proof fn a_table_is_looked_for_from_the_start(doc: Seq<u8>, table: Seq<u8>, fc: int, lcb: int)
    requires
        clx_entry(doc) matches Ok(entry) && entry.0 == fc && entry.1 == lcb,
        fc + lcb <= table.len() <= usize::MAX,
        lcb >= 5,
        table[fc] == 2,
        5 + table[fc + 1] + 256 * table[fc + 2] + 65536 * table[fc + 3] + 16777216 * table[fc + 4]
            == lcb,
    ensures
        document_pieces(doc, table) == plc_pieces(table.subrange(fc + 5, fc + lcb)),
{
    let clx = table.subrange(fc, fc + lcb);
    assert(clx[0] == table[fc]);
    assert(clx[1] == table[fc + 1] && clx[2] == table[fc + 2] && clx[3] == table[fc + 3] && clx[4]
        == table[fc + 4]);
    assert(clx.subrange(5, lcb) =~= table.subrange(fc + 5, fc + lcb));
}

} // verus!
