//! The assembler driver: consumes the token stream, dispatches directives
//! and instructions, and orchestrates label definition and forward-reference
//! patching against the word stream codec.
//!
//! The whole pass is pinned by a spec-level interpreter, `asm_from`, that
//! walks the token sequence carrying the packed buffer, the instruction
//! pointer, the symbol table and the pending-patch list; `assemble_program`
//! is verified to return exactly what the interpreter says, both on success
//! and on every fatal error.

use vstd::prelude::*;

verus! {

use crate::codec::{
    Serialiser,
    push_bytes,
    zero_extend_bytes,
    word_at,
    basic_word,
    iot_word,
    spec_word_base,
    lemma_word_base_ge,
    HEAD_LIMIT,
};
use crate::lexer::{Lexer, LexerError, LexOut, lex_from, lex_prefix, lemma_lex_from_bounds,
    lemma_lex_prefix_len};
use crate::token::{Token, TokenKind, TokView};
use vstd::string::StringExecFns;
use vstd::string::StrSliceExecFns;

/// Largest accepted source length in characters, so that the instruction
/// pointer (at most 0xffff after a reposition, advancing by one word per
/// emitted instruction) stays below the codec's word-index limit.
pub const SRC_LIMIT: usize = 0x0800_0000;

/// A fatal assembly failure. The first detected problem aborts the whole
/// pass; no partial output is usable after any of these.
#[derive(Debug, Clone, PartialEq, Eq)]
pub enum AsmError {
    /// The lexer failed.
    Lex(LexerError),
    /// A directive other than `.w`.
    UnknownDirective(String),
    /// The integer after `.w` does not fit 12 bits.
    WordTooBig(u16),
    /// `.w` not followed by an integer.
    ExpectedInteger,
    /// `$` at the top of the loop not followed by `=`.
    ExpectedEqual,
    /// `$ =` not followed by an integer.
    ExpectedOrgValue,
    /// A mnemonic that names no instruction.
    UnknownInstruction(String),
    /// An IOT operand missing or not an integer.
    ExpectedIotOperand,
    /// An IOT operand of 256 or more.
    IotOperandTooBig(u16),
    /// A basic instruction's operand missing or of the wrong kind.
    ExpectedOperand,
    /// A resolved operand above 127: it does not fit its seven-bit field.
    AddrTooBig,
    /// An indirect operand not followed by `]`.
    ExpectedCloseBracket,
    /// A token that nothing can start with at the top of the loop.
    UnexpectedToken,
    /// Labels still referenced but never defined at end of input, each with
    /// the count of sites that reference it.
    UnresolvedLabels(Vec<(String, usize)>),
}

/// The mathematical shape of an assembly failure: names as character
/// sequences.
pub enum AsmErrView {
    Lex(LexerError),
    UnknownDirective(Seq<char>),
    WordTooBig(u16),
    ExpectedInteger,
    ExpectedEqual,
    ExpectedOrgValue,
    UnknownInstruction(Seq<char>),
    ExpectedIotOperand,
    IotOperandTooBig(u16),
    ExpectedOperand,
    AddrTooBig,
    ExpectedCloseBracket,
    UnexpectedToken,
    UnresolvedLabels(Seq<(Seq<char>, int)>),
}

impl View for AsmError {
    type V = AsmErrView;

    open spec fn view(&self) -> AsmErrView {
        match self {
            AsmError::Lex(e) => AsmErrView::Lex(*e),
            AsmError::UnknownDirective(s) => AsmErrView::UnknownDirective(s@),
            AsmError::WordTooBig(v) => AsmErrView::WordTooBig(*v),
            AsmError::ExpectedInteger => AsmErrView::ExpectedInteger,
            AsmError::ExpectedEqual => AsmErrView::ExpectedEqual,
            AsmError::ExpectedOrgValue => AsmErrView::ExpectedOrgValue,
            AsmError::UnknownInstruction(s) => AsmErrView::UnknownInstruction(s@),
            AsmError::ExpectedIotOperand => AsmErrView::ExpectedIotOperand,
            AsmError::IotOperandTooBig(v) => AsmErrView::IotOperandTooBig(*v),
            AsmError::ExpectedOperand => AsmErrView::ExpectedOperand,
            AsmError::AddrTooBig => AsmErrView::AddrTooBig,
            AsmError::ExpectedCloseBracket => AsmErrView::ExpectedCloseBracket,
            AsmError::UnexpectedToken => AsmErrView::UnexpectedToken,
            AsmError::UnresolvedLabels(v) => AsmErrView::UnresolvedLabels(
                Seq::new(v@.len(), |k: int| (v@[k].0@, v@[k].1 as int)),
            ),
        }
    }
}

/// The state an assembly pass carries: the packed byte buffer, the
/// instruction pointer (a word index), the symbol table, and the
/// pending-patch list mapping each not-yet-defined label to the word
/// indices that reference it, in order of appearance.
#[verifier::ext_equal]
pub struct AsmState {
    pub data: Seq<u8>,
    pub head: int,
    pub labels: Seq<(Seq<char>, int)>,
    pub pending: Seq<(Seq<char>, Seq<int>)>,
}

/// The address of `name` in the symbol table; a later definition wins, as
/// redefinition silently overwrites.
pub open spec fn find_label(labels: Seq<(Seq<char>, int)>, name: Seq<char>) -> Option<int>
    decreases labels.len(),
{
    if labels.len() == 0 {
        None
    } else if labels.last().0 == name {
        Some(labels.last().1)
    } else {
        find_label(labels.drop_last(), name)
    }
}

/// Index of `name`'s entry in the pending-patch list, or -1 when absent.
pub open spec fn pending_idx(pending: Seq<(Seq<char>, Seq<int>)>, name: Seq<char>) -> int
    decreases pending.len(),
{
    if pending.len() == 0 {
        -1
    } else if pending[0].0 == name {
        0
    } else {
        let r = pending_idx(pending.drop_first(), name);
        if r == -1 {
            -1
        } else {
            r + 1
        }
    }
}

/// Records one more reference site for `name`: appended to its entry when
/// one exists, else a fresh entry at the end of the list.
pub open spec fn pending_add(
    pending: Seq<(Seq<char>, Seq<int>)>,
    name: Seq<char>,
    site: int,
) -> Seq<(Seq<char>, Seq<int>)> {
    let r = pending_idx(pending, name);
    if r >= 0 {
        pending.update(r, (name, pending[r].1.push(site)))
    } else {
        pending.push((name, seq![site]))
    }
}

/// Each still-pending label with the count of sites that reference it.
pub open spec fn pending_counts(pending: Seq<(Seq<char>, Seq<int>)>) -> Seq<(Seq<char>, int)> {
    pending.map_values(|e: (Seq<char>, Seq<int>)| (e.0, e.1.len() as int))
}

/// A patched word: the opcode and mode bits of `w` kept, the operand field
/// set to the label's address (as the byte the codec is handed).
pub open spec fn patched_word(w: u16, at: int) -> u16 {
    basic_word((w & 0x7) as u8, ((w >> 3) & 0x3) as u8, (at % 256) as u8)
}

/// One patch: re-encode the word at `site` with its operand set to `at`.
pub open spec fn patch_one(d: Seq<u8>, site: int, at: int) -> Seq<u8> {
    push_bytes(d, site, patched_word(word_at(d, site), at))
}

/// Patching a word that was emitted with the placeholder operand yields
/// exactly the word that encoding the resolved address directly would have
/// given: a forward label reference assembles to the same bytes as the
/// literal address.
pub proof fn lemma_patch_matches_direct(op: u8, mode: u8, at: int)
    requires
        op < 8,
        mode < 4,
        0 <= at,
    ensures
        patched_word(basic_word(op, mode, 0), at) == basic_word(op, mode, (at % 256) as u8),
{
    let w = basic_word(op, mode, 0);
    assert((w & 0x7) as u8 == op && ((w >> 3) & 0x3) as u8 == mode) by (bit_vector)
        requires
            op < 8,
            mode < 4,
            w == ((((op as u32) | ((mode as u32) << 3) | ((0u8 as u32) << 5)) & 0xfff) as u16),
    ;
}

/// All of a label's reference sites patched, in the order they were
/// recorded.
pub open spec fn patch_all(d: Seq<u8>, sites: Seq<int>, at: int) -> Seq<u8>
    decreases sites.len(),
{
    if sites.len() == 0 {
        d
    } else {
        patch_one(patch_all(d, sites.drop_last(), at), sites.last(), at)
    }
}

/// The three-bit opcode of a mnemonic; both spellings of each are accepted.
pub open spec fn opcode_of(name: Seq<char>) -> Option<u8> {
    if name == "and"@ || name == "AND"@ {
        Some(0u8)
    } else if name == "tad"@ || name == "TAD"@ {
        Some(1u8)
    } else if name == "isz"@ || name == "ISZ"@ {
        Some(2u8)
    } else if name == "dca"@ || name == "DCA"@ {
        Some(3u8)
    } else if name == "call"@ || name == "CALL"@ {
        Some(4u8)
    } else if name == "jmp"@ || name == "JMP"@ {
        Some(5u8)
    } else if name == "iot"@ || name == "IOT"@ {
        Some(6u8)
    } else if name == "opr"@ || name == "OPR"@ {
        Some(7u8)
    } else {
        None
    }
}

/// One word appended at the instruction pointer.
pub open spec fn state_push(st: AsmState, w: u16) -> AsmState {
    AsmState {
        data: push_bytes(st.data, st.head, w),
        head: st.head + 1,
        labels: st.labels,
        pending: st.pending,
    }
}

/// The instruction pointer repositioned; seeking past the end zero-extends
/// the buffer so that the seeked word position is itself covered.
pub open spec fn state_seek(st: AsmState, ip: int) -> AsmState {
    AsmState {
        data: zero_extend_bytes(st.data, spec_word_base(ip) + 2),
        head: ip,
        labels: st.labels,
        pending: st.pending,
    }
}

/// A label defined at the current instruction pointer: every recorded
/// reference site is patched with the new address, the pending entry is
/// cleared, the symbol table gains the binding, and assembly continues from
/// the same address (a definition consumes no space). The closing seek back
/// to the definition's address covers that word position, like every seek.
pub open spec fn state_define_label(st: AsmState, name: Seq<char>) -> AsmState {
    let at = st.head;
    let r = pending_idx(st.pending, name);
    let d2 = if r >= 0 {
        patch_all(st.data, st.pending[r].1, at)
    } else {
        st.data
    };
    let pend2 = if r >= 0 {
        st.pending.remove(r)
    } else {
        st.pending
    };
    AsmState {
        data: zero_extend_bytes(d2, spec_word_base(at) + 2),
        head: at,
        labels: st.labels.push((name, at)),
        pending: pend2,
    }
}

/// Outcome of a pass: the final state, or the first fatal error.
pub enum AsmOut {
    Done(AsmState),
    Fail(AsmErrView),
}

/// The failure reported where the driver needs one more token than the
/// stream holds: the lexical failure that cut the stream short, if one did,
/// else the given syntactic error. Tokens are pulled lazily, so a bad
/// character surfaces exactly when the driver reaches for it.
pub open spec fn cut_short(lexfail: Option<LexerError>, otherwise: AsmErrView) -> AsmErrView {
    match lexfail {
        Some(e) => AsmErrView::Lex(e),
        None => otherwise,
    }
}

/// The assembly pass itself, from token index `i` in state `st`, over the
/// longest well-formed token prefix `toks`; `lexfail` is the lexical
/// failure that cut the stream short, if one did. This is the central
/// contract: one dispatch per top-of-loop token, exactly as the driver
/// performs it, down to which error each ill-formed input earns.
pub open spec fn asm_from(
    toks: Seq<TokView>,
    lexfail: Option<LexerError>,
    i: int,
    st: AsmState,
) -> AsmOut
    decreases toks.len() - i,
{
    if !(0 <= i < toks.len()) {
        match lexfail {
            Some(e) => AsmOut::Fail(AsmErrView::Lex(e)),
            None => if st.pending.len() > 0 {
                AsmOut::Fail(AsmErrView::UnresolvedLabels(pending_counts(st.pending)))
            } else {
                AsmOut::Done(st)
            },
        }
    } else {
        match toks[i] {
            TokView::DotWord(w) => {
                if w != "w"@ {
                    AsmOut::Fail(AsmErrView::UnknownDirective(w))
                } else if i + 1 >= toks.len() {
                    AsmOut::Fail(cut_short(lexfail, AsmErrView::ExpectedInteger))
                } else if !(toks[i + 1] is Integer) {
                    AsmOut::Fail(AsmErrView::ExpectedInteger)
                } else {
                    let v = toks[i + 1]->Integer_0;
                    if v >= 0x1000 {
                        AsmOut::Fail(AsmErrView::WordTooBig(v))
                    } else {
                        asm_from(toks, lexfail, i + 2, state_push(st, v))
                    }
                }
            },
            TokView::CurrentInst => {
                if i + 1 >= toks.len() {
                    AsmOut::Fail(cut_short(lexfail, AsmErrView::ExpectedEqual))
                } else if !(toks[i + 1] is Equal) {
                    AsmOut::Fail(AsmErrView::ExpectedEqual)
                } else if i + 2 >= toks.len() {
                    AsmOut::Fail(cut_short(lexfail, AsmErrView::ExpectedOrgValue))
                } else if !(toks[i + 2] is Integer) {
                    AsmOut::Fail(AsmErrView::ExpectedOrgValue)
                } else {
                    asm_from(toks, lexfail, i + 3, state_seek(st, toks[i + 2]->Integer_0 as int))
                }
            },
            TokView::Word(name) => {
                if i + 1 >= toks.len() && lexfail is Some {
                    // The definition check peeks one token ahead, so the
                    // lexical failure is hit before anything is decided.
                    AsmOut::Fail(cut_short(lexfail, AsmErrView::UnexpectedToken))
                } else if i + 1 < toks.len() && toks[i + 1] is DoubleDot {
                    asm_from(toks, lexfail, i + 2, state_define_label(st, name))
                } else {
                    match opcode_of(name) {
                        None => AsmOut::Fail(AsmErrView::UnknownInstruction(name)),
                        Some(op) => {
                            if op == 6 {
                                if i + 1 >= toks.len() {
                                    AsmOut::Fail(cut_short(lexfail, AsmErrView::ExpectedIotOperand))
                                } else if !(toks[i + 1] is Integer) {
                                    AsmOut::Fail(AsmErrView::ExpectedIotOperand)
                                } else if toks[i + 1]->Integer_0 >= 256 {
                                    AsmOut::Fail(
                                        AsmErrView::IotOperandTooBig(toks[i + 1]->Integer_0),
                                    )
                                } else if i + 2 >= toks.len() {
                                    AsmOut::Fail(cut_short(lexfail, AsmErrView::ExpectedIotOperand))
                                } else if !(toks[i + 2] is Integer) {
                                    AsmOut::Fail(AsmErrView::ExpectedIotOperand)
                                } else if toks[i + 2]->Integer_0 >= 256 {
                                    AsmOut::Fail(
                                        AsmErrView::IotOperandTooBig(toks[i + 2]->Integer_0),
                                    )
                                } else {
                                    asm_from(
                                        toks,
                                        lexfail,
                                        i + 3,
                                        state_push(
                                            st,
                                            iot_word(
                                                toks[i + 1]->Integer_0 as u8,
                                                toks[i + 2]->Integer_0 as u8,
                                            ),
                                        ),
                                    )
                                }
                            } else {
                                let mode: u8 = if i + 1 < toks.len() {
                                    match toks[i + 1] {
                                        TokView::OpenSquare => 1u8,
                                        TokView::Word(z) => if z == "Z"@ {
                                            2u8
                                        } else {
                                            0u8
                                        },
                                        _ => 0u8,
                                    }
                                } else {
                                    0u8
                                };
                                let j = if mode != 0 {
                                    i + 2
                                } else {
                                    i + 1
                                };
                                if j >= toks.len() {
                                    AsmOut::Fail(cut_short(lexfail, AsmErrView::ExpectedOperand))
                                } else {
                                    let opr: Result<(u8, Seq<(Seq<char>, Seq<int>)>), AsmErrView> =
                                        match toks[j] {
                                        TokView::Integer(v) => if v > 127 {
                                            Err(AsmErrView::AddrTooBig)
                                        } else {
                                            Ok((v as u8, st.pending))
                                        },
                                        TokView::CurrentInst => if st.head > 127 || st.head < 0 {
                                            Err(AsmErrView::AddrTooBig)
                                        } else {
                                            Ok((st.head as u8, st.pending))
                                        },
                                        TokView::Word(l) => match find_label(st.labels, l) {
                                            Some(a) => if a > 127 || a < 0 {
                                                Err(AsmErrView::AddrTooBig)
                                            } else {
                                                Ok((a as u8, st.pending))
                                            },
                                            None => Ok(
                                                (0u8, pending_add(st.pending, l, st.head)),
                                            ),
                                        },
                                        _ => Err(AsmErrView::ExpectedOperand),
                                    };
                                    match opr {
                                        Err(e) => AsmOut::Fail(e),
                                        Ok((addr, pend2)) => {
                                            let st2 = AsmState {
                                                data: st.data,
                                                head: st.head,
                                                labels: st.labels,
                                                pending: pend2,
                                            };
                                            if mode == 1 {
                                                if j + 1 >= toks.len() {
                                                    AsmOut::Fail(
                                                        cut_short(
                                                            lexfail,
                                                            AsmErrView::ExpectedCloseBracket,
                                                        ),
                                                    )
                                                } else if !(toks[j + 1] is CloseSquare) {
                                                    AsmOut::Fail(AsmErrView::ExpectedCloseBracket)
                                                } else {
                                                    asm_from(
                                                        toks,
                                                        lexfail,
                                                        j + 2,
                                                        state_push(st2, basic_word(op, mode, addr)),
                                                    )
                                                }
                                            } else {
                                                asm_from(
                                                    toks,
                                                    lexfail,
                                                    j + 1,
                                                    state_push(st2, basic_word(op, mode, addr)),
                                                )
                                            }
                                        },
                                    }
                                }
                            }
                        },
                    }
                }
            },
            _ => AsmOut::Fail(AsmErrView::UnexpectedToken),
        }
    }
}

/// A whole pass over a source text: the interpreter runs from token zero
/// over the longest well-formed token prefix, and a lexical failure is
/// reported exactly where the driver, pulling tokens lazily, reaches it.
pub open spec fn asm_src(src: Seq<char>, st: AsmState) -> AsmOut {
    let (toks, lexfail) = lex_prefix(src, 0);
    asm_from(toks, lexfail, 0, st)
}

/// Character-for-character string equality.
fn str_eq(a: &str, b: &str) -> (r: bool)
    ensures
        r == (a@ == b@),
{
    let alen = a.unicode_len();
    let blen = b.unicode_len();
    if alen != blen {
        return false;
    }
    let mut k: usize = 0;
    while k < alen
        invariant
            alen == a@.len(),
            alen == b@.len(),
            k <= alen,
            forall|m: int| 0 <= m < k ==> a@[m] == b@[m],
        decreases alen - k,
    {
        if a.get_char(k) != b.get_char(k) {
            return false;
        }
        k = k + 1;
    }
    proof {
        assert(a@ =~= b@);
    }
    true
}

/// The opcode of a mnemonic spelling, if it is one.
fn opcode_lookup(op: &str) -> (r: Option<u8>)
    ensures
        r == opcode_of(op@),
{
    if str_eq(op, "and") || str_eq(op, "AND") {
        Some(0)
    } else if str_eq(op, "tad") || str_eq(op, "TAD") {
        Some(1)
    } else if str_eq(op, "isz") || str_eq(op, "ISZ") {
        Some(2)
    } else if str_eq(op, "dca") || str_eq(op, "DCA") {
        Some(3)
    } else if str_eq(op, "call") || str_eq(op, "CALL") {
        Some(4)
    } else if str_eq(op, "jmp") || str_eq(op, "JMP") {
        Some(5)
    } else if str_eq(op, "iot") || str_eq(op, "IOT") {
        Some(6)
    } else if str_eq(op, "opr") || str_eq(op, "OPR") {
        Some(7)
    } else {
        None
    }
}

/// The views of a token sequence.
spec fn tok_views<'d>(ts: Seq<Token<'d>>) -> Seq<TokView> {
    ts.map_values(|t: Token<'d>| t@)
}

/// Reads the longest well-formed token prefix of `src`, together with the
/// lexical failure that cut it short, if one did.
fn tokenize<'d>(src: &'d str) -> (r: (Vec<Token<'d>>, Option<LexerError>))
    ensures
        tok_views(r.0@) == lex_prefix(src@, 0).0,
        r.1 == lex_prefix(src@, 0).1,
{
    let ghost s = src@;
    let mut lexer = Lexer::new(src);
    let mut out: Vec<Token<'d>> = Vec::new();
    loop
        invariant
            lexer.wf(),
            lexer.src@ == s,
            s == src@,
            lex_prefix(s, 0).0 == tok_views(out@) + lex_prefix(s, lexer.pos as int).0,
            lex_prefix(s, 0).1 == lex_prefix(s, lexer.pos as int).1,
        decreases s.len() - lexer.pos,
    {
        let ghost p0 = lexer.pos as int;
        proof {
            lemma_lex_from_bounds(s, p0);
        }
        match lexer.next() {
            Ok(None) => {
                proof {
                    assert(lex_prefix(s, p0).0 =~= Seq::<TokView>::empty());
                    assert(tok_views(out@) + Seq::<TokView>::empty() =~= tok_views(out@));
                }
                return (out, None);
            },
            Ok(Some(t)) => {
                let ghost tv = t@;
                let ghost p = lexer.pos as int;
                let ghost out0 = out@;
                proof {
                    assert(lex_from(s, p0) == LexOut::Tok(tv, p));
                    assert(lex_prefix(s, p0).0 == seq![tv] + lex_prefix(s, p).0);
                    assert(lex_prefix(s, p0).1 == lex_prefix(s, p).1);
                }
                out.push(t);
                proof {
                    assert(tok_views(out@) =~= tok_views(out0) + seq![tv]);
                    assert((tok_views(out0) + seq![tv]) + lex_prefix(s, p).0 =~= tok_views(out0) + (
                    seq![tv] + lex_prefix(s, p).0));
                }
            },
            Err(e) => {
                proof {
                    assert(lex_prefix(s, p0).0 =~= Seq::<TokView>::empty());
                    assert(tok_views(out@) + Seq::<TokView>::empty() =~= tok_views(out@));
                }
                return (out, Some(e));
            },
        }
    }
}

/// The mathematical view of the symbol table's backing vector.
spec fn labels_view<'d>(ls: Seq<(&'d str, usize)>) -> Seq<(Seq<char>, int)> {
    ls.map_values(|e: (&'d str, usize)| (e.0@, e.1 as int))
}

/// The mathematical view of the pending-patch list's backing vector.
spec fn pending_view<'d>(ps: Seq<(&'d str, Vec<usize>)>) -> Seq<(Seq<char>, Seq<int>)> {
    ps.map_values(|e: (&'d str, Vec<usize>)| (e.0@, e.1@.map_values(|x: usize| x as int)))
}

/// Looks `name` up in the symbol table; the latest definition wins.
fn lookup_label<'d>(labels: &Vec<(&'d str, usize)>, name: &str) -> (r: Option<usize>)
    ensures
        match r {
            Some(v) => find_label(labels_view(labels@), name@) == Some(v as int),
            None => find_label(labels_view(labels@), name@) is None,
        },
{
    let ghost lv = labels_view(labels@);
    let mut k = labels.len();
    proof {
        assert(lv.take(labels@.len() as int) =~= lv);
    }
    while k > 0
        invariant
            k <= labels@.len(),
            lv == labels_view(labels@),
            lv.len() == labels@.len(),
            find_label(lv, name@) == find_label(lv.take(k as int), name@),
        decreases k,
    {
        k = k - 1;
        let e = labels[k];
        proof {
            assert(lv.take(k + 1 as int).drop_last() =~= lv.take(k as int));
            assert(lv.take(k + 1 as int).last() == (e.0@, e.1 as int));
        }
        if str_eq(e.0, name) {
            return Some(e.1);
        }
    }
    proof {
        assert(lv.take(0) =~= Seq::<(Seq<char>, int)>::empty());
    }
    None
}

/// `pending_idx` names the first matching entry, or -1; this pins where it
/// points whenever a prefix is known not to match.
proof fn lemma_pending_idx_at(s: Seq<(Seq<char>, Seq<int>)>, name: Seq<char>, k: int)
    requires
        0 <= k <= s.len(),
        forall|m: int| 0 <= m < k ==> s[m].0 != name,
    ensures
        k < s.len() && s[k].0 == name ==> pending_idx(s, name) == k,
        k == s.len() ==> pending_idx(s, name) == -1,
    decreases s.len(),
{
    if s.len() == 0 {
    } else if s[0].0 == name {
    } else {
        let t = s.drop_first();
        if k > 0 {
            assert(forall|m: int| 0 <= m < k - 1 ==> t[m].0 != name);
            lemma_pending_idx_at(t, name, k - 1);
        } else {
            lemma_pending_idx_at(t, name, 0);
        }
    }
}

/// Finds the pending-patch entry of `name`, if one exists.
fn pending_find<'d>(pending: &Vec<(&'d str, Vec<usize>)>, name: &str) -> (r: Option<usize>)
    ensures
        match r {
            Some(ix) => ix < pending@.len() && pending_idx(pending_view(pending@), name@)
                == ix as int,
            None => pending_idx(pending_view(pending@), name@) == -1,
        },
{
    let ghost pv = pending_view(pending@);
    let mut k: usize = 0;
    let n = pending.len();
    while k < n
        invariant
            k <= n,
            n == pending@.len(),
            pv == pending_view(pending@),
            pv.len() == n,
            forall|m: int| 0 <= m < k ==> pv[m].0 != name@,
        decreases n - k,
    {
        let e = &pending[k];
        if str_eq(e.0, name) {
            proof {
                lemma_pending_idx_at(pv, name@, k as int);
            }
            return Some(k);
        }
        k = k + 1;
    }
    proof {
        lemma_pending_idx_at(pv, name@, n as int);
    }
    None
}

/// The still-pending labels, each with its reference count, in order of
/// first appearance.
fn pending_counts_exec<'d>(pending: &Vec<(&'d str, Vec<usize>)>) -> (r: Vec<(String, usize)>)
    ensures
        Seq::new(r@.len(), |k: int| (r@[k].0@, r@[k].1 as int)) == pending_counts(
            pending_view(pending@),
        ),
{
    let mut r: Vec<(String, usize)> = Vec::new();
    let mut k: usize = 0;
    let n = pending.len();
    while k < n
        invariant
            k <= n,
            n == pending@.len(),
            r@.len() == k,
            forall|m: int|
                0 <= m < k ==> (#[trigger] r@[m]).0@ == pending@[m].0@ && r@[m].1
                    == pending@[m].1@.len(),
        decreases n - k,
    {
        let e = &pending[k];
        r.push((String::from_str(e.0), e.1.len()));
        k = k + 1;
    }
    proof {
        assert(Seq::new(r@.len(), |k: int| (r@[k].0@, r@[k].1 as int)) =~= pending_counts(
            pending_view(pending@),
        ));
    }
    r
}

/// Every recorded patch site lies, with both of its bytes, inside a buffer
/// of `len` bytes, and below the codec's word-index limit: what patching
/// will seek to, decode and rewrite is always there.
spec fn sites_wf(pending: Seq<(Seq<char>, Seq<int>)>, len: int) -> bool {
    forall|a: int, b: int|
        0 <= a < pending.len() && 0 <= b < pending[a].1.len() ==> 0 <= #[trigger] pending[a].1[b]
            && spec_word_base(pending[a].1[b]) + 2 <= len && pending[a].1[b] < HEAD_LIMIT as int
}

/// A found entry really is one: its index is in range and carries the name.
proof fn lemma_pending_idx_range(p: Seq<(Seq<char>, Seq<int>)>, name: Seq<char>)
    ensures
        pending_idx(p, name) == -1 || (0 <= pending_idx(p, name) < p.len() && p[pending_idx(
            p,
            name,
        )].0 == name),
    decreases p.len(),
{
    if p.len() > 0 && p[0].0 != name {
        lemma_pending_idx_range(p.drop_first(), name);
    }
}

proof fn lemma_sites_wf_grow(p: Seq<(Seq<char>, Seq<int>)>, len1: int, len2: int)
    requires
        sites_wf(p, len1),
        len1 <= len2,
    ensures
        sites_wf(p, len2),
{
}

proof fn lemma_sites_wf_add(
    p: Seq<(Seq<char>, Seq<int>)>,
    len: int,
    name: Seq<char>,
    site: int,
    len2: int,
)
    requires
        sites_wf(p, len),
        len <= len2,
        0 <= site,
        spec_word_base(site) + 2 <= len2,
        site < HEAD_LIMIT,
    ensures
        sites_wf(pending_add(p, name, site), len2),
{
    let q = pending_add(p, name, site);
    lemma_pending_idx_range(p, name);
    let r = pending_idx(p, name);
    assert forall|a: int, b: int| 0 <= a < q.len() && 0 <= b < q[a].1.len() implies 0
        <= #[trigger] q[a].1[b] && spec_word_base(q[a].1[b]) + 2 <= len2 && q[a].1[b]
        < HEAD_LIMIT as int by {
        if r >= 0 {
            if a == r && b == p[a].1.len() {
            } else {
                assert(q[a].1[b] == p[a].1[b]);
            }
        } else {
            if a == p.len() {
            } else {
                assert(q[a].1[b] == p[a].1[b]);
            }
        }
    }
}

proof fn lemma_sites_wf_remove(p: Seq<(Seq<char>, Seq<int>)>, len: int, ix: int)
    requires
        sites_wf(p, len),
        0 <= ix < p.len(),
    ensures
        sites_wf(p.remove(ix), len),
{
    let q = p.remove(ix);
    assert forall|a: int, b: int| 0 <= a < q.len() && 0 <= b < q[a].1.len() implies 0
        <= #[trigger] q[a].1[b] && spec_word_base(q[a].1[b]) + 2 <= len && q[a].1[b]
        < HEAD_LIMIT as int by {
        if a < ix {
            assert(q[a].1[b] == p[a].1[b]);
        } else {
            assert(q[a].1[b] == p[a + 1].1[b]);
        }
    }
}

/// The driver loop's invariant, at token index `i` with the codec `out`,
/// symbol-table view `lv` and pending-view `pv`: every recorded patch site
/// is backed by bytes, the instruction pointer stays within the codec's
/// limit, and running the interpreter from `i` in the current state finishes
/// the very run that started at token zero in `st0`.
spec fn driver_inv(
    tvs: Seq<TokView>,
    lexfail: Option<LexerError>,
    st0: AsmState,
    out: Serialiser,
    lv: Seq<(Seq<char>, int)>,
    pv: Seq<(Seq<char>, Seq<int>)>,
    i: int,
) -> bool {
    &&& 0 <= i <= tvs.len()
    &&& tvs.len() <= SRC_LIMIT
    &&& out.head as int <= 0x1_0000 + i
    &&& out.data@.len() >= out.head
    &&& sites_wf(pv, out.data@.len() as int)
    &&& asm_from(tvs, lexfail, 0, st0) == asm_from(
        tvs,
        lexfail,
        i,
        (AsmState { data: out.data@, head: out.head as int, labels: lv, pending: pv }),
    )
}

/// One `.w`-style directive step: the token at `i` is `DotWord(w)`.
#[verifier::rlimit(100)]
fn step_dotword<'d>(
    out: &mut Serialiser,
    toks: &Vec<Token<'d>>,
    lex_err: Option<LexerError>,
    i: usize,
    w: &'d str,
    Ghost(tvs): Ghost<Seq<TokView>>,
    Ghost(st0): Ghost<AsmState>,
    Ghost(lv): Ghost<Seq<(Seq<char>, int)>>,
    Ghost(pv): Ghost<Seq<(Seq<char>, Seq<int>)>>,
) -> (r: Result<usize, AsmError>)
    requires
        tvs == tok_views(toks@),
        i < toks@.len(),
        toks@[i as int].kind == TokenKind::DotWord(w),
        driver_inv(tvs, lex_err, st0, *old(out), lv, pv, i as int),
    ensures
        match r {
            Ok(i2) => i < i2 && driver_inv(tvs, lex_err, st0, *final(out), lv, pv, i2 as int),
            Err(e) => asm_from(tvs, lex_err, 0, st0) == AsmOut::Fail(e@),
        },
{
    let ghost cur = AsmState {
        data: out.data@,
        head: out.head as int,
        labels: lv,
        pending: pv,
    };
    let ghost ii = i as int;
    proof {
        assert(tvs[ii] == toks@[ii]@);
    }
    if !str_eq(w, "w") {
        proof {
            assert(asm_from(tvs, lex_err, ii, cur) == AsmOut::Fail(AsmErrView::UnknownDirective(w@)));
        }
        return Err(AsmError::UnknownDirective(String::from_str(w)));
    }
    if i + 1 >= toks.len() {
        return match lex_err {
            Some(le) => Err(AsmError::Lex(le)),
            None => Err(AsmError::ExpectedInteger),
        };
    }
    proof {
        assert(tvs[ii + 1] == toks@[ii + 1]@);
    }
    let v: u16;
    match toks[i + 1].kind {
        TokenKind::Integer(vv) => {
            v = vv;
        },
        _ => {
            return Err(AsmError::ExpectedInteger);
        },
    }
    if v >= 0x1000 {
        return Err(AsmError::WordTooBig(v));
    }
    out.encode_word(v);
    proof {
        lemma_word_base_ge(cur.head);
        lemma_sites_wf_grow(pv, cur.data.len() as int, out.data@.len() as int);
        assert(asm_from(tvs, lex_err, ii, cur) == asm_from(tvs, lex_err, ii + 2, state_push(cur, v)));
    }
    Ok(i + 2)
}

/// One `$ = N` step: the token at `i` is `CurrentInst`.
#[verifier::rlimit(100)]
fn step_org<'d>(
    out: &mut Serialiser,
    toks: &Vec<Token<'d>>,
    lex_err: Option<LexerError>,
    i: usize,
    Ghost(tvs): Ghost<Seq<TokView>>,
    Ghost(st0): Ghost<AsmState>,
    Ghost(lv): Ghost<Seq<(Seq<char>, int)>>,
    Ghost(pv): Ghost<Seq<(Seq<char>, Seq<int>)>>,
) -> (r: Result<usize, AsmError>)
    requires
        tvs == tok_views(toks@),
        i < toks@.len(),
        toks@[i as int].kind == TokenKind::CurrentInst,
        driver_inv(tvs, lex_err, st0, *old(out), lv, pv, i as int),
    ensures
        match r {
            Ok(i2) => i < i2 && driver_inv(tvs, lex_err, st0, *final(out), lv, pv, i2 as int),
            Err(e) => asm_from(tvs, lex_err, 0, st0) == AsmOut::Fail(e@),
        },
{
    let ghost cur = AsmState {
        data: out.data@,
        head: out.head as int,
        labels: lv,
        pending: pv,
    };
    let ghost ii = i as int;
    proof {
        assert(tvs[ii] == toks@[ii]@);
    }
    if i + 1 >= toks.len() {
        return match lex_err {
            Some(le) => Err(AsmError::Lex(le)),
            None => Err(AsmError::ExpectedEqual),
        };
    }
    proof {
        assert(tvs[ii + 1] == toks@[ii + 1]@);
    }
    match toks[i + 1].kind {
        TokenKind::Equal => {},
        _ => {
            return Err(AsmError::ExpectedEqual);
        },
    }
    if i + 2 >= toks.len() {
        return match lex_err {
            Some(le) => Err(AsmError::Lex(le)),
            None => Err(AsmError::ExpectedOrgValue),
        };
    }
    proof {
        assert(tvs[ii + 2] == toks@[ii + 2]@);
    }
    let v: u16;
    match toks[i + 2].kind {
        TokenKind::Integer(vv) => {
            v = vv;
        },
        _ => {
            return Err(AsmError::ExpectedOrgValue);
        },
    }
    let _prev = out.set_ip(v as usize);
    proof {
        lemma_word_base_ge(v as int);
        lemma_sites_wf_grow(pv, cur.data.len() as int, out.data@.len() as int);
        assert(asm_from(tvs, lex_err, ii, cur) == asm_from(tvs, lex_err, ii + 3, state_seek(cur, v as int)));
    }
    Ok(i + 3)
}

/// One label-definition step: the token at `i` is `Word(name)` and the one
/// after it is the colon. Patches every recorded reference site of `name`
/// with the current address, then continues from that same address.
#[verifier::rlimit(100)]
fn step_label_def<'d>(
    out: &mut Serialiser,
    labels: &mut Vec<(&'d str, usize)>,
    pending: &mut Vec<(&'d str, Vec<usize>)>,
    toks: &Vec<Token<'d>>,
    i: usize,
    name: &'d str,
    lex_err: Option<LexerError>,
    Ghost(tvs): Ghost<Seq<TokView>>,
    Ghost(st0): Ghost<AsmState>,
) -> (i2: usize)
    requires
        tvs == tok_views(toks@),
        i + 1 < toks@.len(),
        toks@[i as int].kind == TokenKind::Word(name),
        toks@[i + 1 as int].kind == TokenKind::DoubleDot,
        driver_inv(
            tvs,
            lex_err,
            st0,
            *old(out),
            labels_view(old(labels)@),
            pending_view(old(pending)@),
            i as int,
        ),
    ensures
        i < i2 && driver_inv(
            tvs,
            lex_err,
            st0,
            *final(out),
            labels_view(final(labels)@),
            pending_view(final(pending)@),
            i2 as int,
        ),
{
    let ghost cur = AsmState {
        data: out.data@,
        head: out.head as int,
        labels: labels_view(labels@),
        pending: pending_view(pending@),
    };
    let ghost ii = i as int;
    proof {
        assert(tvs[ii] == toks@[ii]@);
        assert(tvs[ii + 1] == toks@[ii + 1]@);
    }
    let at = out.get_ip();
    match pending_find(&pending, name) {
        Some(ix) => {
            let ghost pv0 = pending_view(pending@);
            let entry = pending.remove(ix);
            let sites = entry.1;
            let ghost sv = pv0[ix as int].1;
            proof {
                assert(sv =~= sites@.map_values(|x: usize| x as int));
                assert(pending_view(pending@) =~~= pv0.remove(ix as int));
                lemma_sites_wf_remove(pv0, cur.data.len() as int, ix as int);
            }
            let ghost d_pre = out.data@;
            let mut si: usize = 0;
            while si < sites.len()
                invariant
                    si <= sites@.len(),
                    sv == sites@.map_values(|x: usize| x as int),
                    sv.len() == sites@.len(),
                    out.data@ == patch_all(d_pre, sv.take(si as int), at as int),
                    out.data@.len() >= d_pre.len(),
                    forall|b: int|
                        0 <= b < sv.len() ==> 0 <= #[trigger] sv[b] && spec_word_base(sv[b]) + 2
                            <= d_pre.len() && sv[b] < HEAD_LIMIT as int,
                decreases sites@.len() - si,
            {
                let x = sites[si];
                proof {
                    assert(sv[si as int] == x as int);
                    lemma_word_base_ge(x as int);
                }
                let ghost d_here = out.data@;
                let _prev = out.set_ip(x);
                proof {
                    assert(out.data@ == d_here);
                }
                let f = out.decode_basic();
                out.encode_basic(f.0, f.1, (at % 256) as u8);
                proof {
                    assert(sv.take(si + 1).drop_last() =~= sv.take(si as int));
                    assert(sv.take(si + 1).last() == sv[si as int]);
                    assert(out.data@ == patch_one(d_here, x as int, at as int));
                    assert(out.data@ == patch_all(d_pre, sv.take(si + 1), at as int));
                }
                si = si + 1;
            }
            proof {
                assert(sv.take(sv.len() as int) =~= sv);
            }
        },
        None => {},
    }
    // A definition always seeks back to its own address, covering it.
    let _prev = out.set_ip(at);
    labels.push((name, at));
    proof {
        lemma_word_base_ge(at as int);
        assert(labels_view(labels@) =~= cur.labels.push((name@, at as int)));
        let st2 = state_define_label(cur, name@);
        assert(out.data@ == st2.data);
        assert(pending_view(pending@) =~~= st2.pending);
        assert(asm_from(tvs, lex_err, ii, cur) == asm_from(tvs, lex_err, ii + 2, st2));
        lemma_sites_wf_grow(pending_view(pending@), cur.data.len() as int, out.data@.len() as int);
    }
    i + 2
}

/// One instruction step: the token at `i` is `Word(name)` and no colon
/// follows, so `name` must be a mnemonic; emits one word, recording a patch
/// site when the operand names a label not yet defined.
#[verifier::rlimit(100)]
fn step_instruction<'d>(
    out: &mut Serialiser,
    labels: &Vec<(&'d str, usize)>,
    pending: &mut Vec<(&'d str, Vec<usize>)>,
    toks: &Vec<Token<'d>>,
    i: usize,
    name: &'d str,
    lex_err: Option<LexerError>,
    Ghost(tvs): Ghost<Seq<TokView>>,
    Ghost(st0): Ghost<AsmState>,
) -> (r: Result<usize, AsmError>)
    requires
        tvs == tok_views(toks@),
        i < toks@.len(),
        toks@[i as int].kind == TokenKind::Word(name),
        i + 1 < toks@.len() ==> !(toks@[i + 1 as int].kind is DoubleDot),
        i + 1 >= toks@.len() ==> lex_err is None,
        driver_inv(
            tvs,
            lex_err,
            st0,
            *old(out),
            labels_view(labels@),
            pending_view(old(pending)@),
            i as int,
        ),
    ensures
        match r {
            Ok(i2) => i < i2 && driver_inv(
                tvs,
                lex_err,
                st0,
                *final(out),
                labels_view(labels@),
                pending_view(final(pending)@),
                i2 as int,
            ),
            Err(e) => asm_from(tvs, lex_err, 0, st0) == AsmOut::Fail(e@),
        },
{
    let ghost cur = AsmState {
        data: out.data@,
        head: out.head as int,
        labels: labels_view(labels@),
        pending: pending_view(pending@),
    };
    let ghost ii = i as int;
    proof {
        assert(tvs[ii] == toks@[ii]@);
        if i + 1 < toks.len() {
            assert(tvs[ii + 1] == toks@[ii + 1]@);
        }
    }
    let op = match opcode_lookup(name) {
        Some(op) => op,
        None => {
            proof {
                assert(asm_from(tvs, lex_err, ii, cur) == AsmOut::Fail(
                    AsmErrView::UnknownInstruction(name@),
                ));
            }
            return Err(AsmError::UnknownInstruction(String::from_str(name)));
        },
    };
    if op == 6 {
        if i + 1 >= toks.len() {
            return match lex_err {
                Some(le) => Err(AsmError::Lex(le)),
                None => Err(AsmError::ExpectedIotOperand),
            };
        }
        let dv: u16;
        match toks[i + 1].kind {
            TokenKind::Integer(vv) => {
                dv = vv;
            },
            _ => {
                return Err(AsmError::ExpectedIotOperand);
            },
        }
        if dv >= 256 {
            return Err(AsmError::IotOperandTooBig(dv));
        }
        if i + 2 >= toks.len() {
            return match lex_err {
                Some(le) => Err(AsmError::Lex(le)),
                None => Err(AsmError::ExpectedIotOperand),
            };
        }
        proof {
            assert(tvs[ii + 2] == toks@[ii + 2]@);
        }
        let fv: u16;
        match toks[i + 2].kind {
            TokenKind::Integer(vv) => {
                fv = vv;
            },
            _ => {
                return Err(AsmError::ExpectedIotOperand);
            },
        }
        if fv >= 256 {
            return Err(AsmError::IotOperandTooBig(fv));
        }
        out.encode_iot(dv as u8, fv as u8);
        proof {
            lemma_word_base_ge(cur.head);
            lemma_sites_wf_grow(cur.pending, cur.data.len() as int, out.data@.len() as int);
            assert(asm_from(tvs, lex_err, ii, cur) == asm_from(
                tvs,
                lex_err,
                ii + 3,
                state_push(cur, iot_word(dv as u8, fv as u8)),
            ));
        }
        return Ok(i + 3);
    }
    let mut mode: u8 = 0;
    if i + 1 < toks.len() {
        match toks[i + 1].kind {
            TokenKind::OpenSquare => {
                mode = 1;
            },
            TokenKind::Word(z) => {
                if str_eq(z, "Z") {
                    mode = 2;
                }
            },
            _ => {},
        }
    }
    let j = if mode != 0 {
        i + 2
    } else {
        i + 1
    };
    let ghost jj = j as int;
    if j >= toks.len() {
        return match lex_err {
            Some(le) => Err(AsmError::Lex(le)),
            None => Err(AsmError::ExpectedOperand),
        };
    }
    // The encode below grows the buffer to just cover the word at the
    // current pointer; a patch site recorded for this very word is then in
    // bounds.
    let ghost grown: int = if cur.data.len() as int >= spec_word_base(cur.head) + 2 {
        cur.data.len() as int
    } else {
        spec_word_base(cur.head) + 2
    };
    proof {
        assert(tvs[jj] == toks@[jj]@);
        lemma_word_base_ge(cur.head);
        lemma_sites_wf_grow(cur.pending, cur.data.len() as int, grown);
    }
    let mut addr: u8 = 0;
    match toks[j].kind {
        TokenKind::Integer(v) => {
            if v > 127 {
                return Err(AsmError::AddrTooBig);
            }
            addr = v as u8;
        },
        TokenKind::CurrentInst => {
            let h = out.get_ip();
            if h > 127 {
                return Err(AsmError::AddrTooBig);
            }
            addr = h as u8;
        },
        TokenKind::Word(l) => {
            match lookup_label(labels, l) {
                Some(a) => {
                    if a > 127 {
                        return Err(AsmError::AddrTooBig);
                    }
                    addr = a as u8;
                },
                None => {
                    let site = out.get_ip();
                    match pending_find(&pending, l) {
                        Some(ix) => {
                            let ghost pv0 = pending_view(pending@);
                            let mut entry = pending.remove(ix);
                            entry.1.push(site);
                            pending.insert(ix, entry);
                            proof {
                                lemma_pending_idx_range(pv0, l@);
                                assert(pv0[ix as int].0 == l@);
                                assert(pending_view(pending@) =~~= pv0.update(
                                    ix as int,
                                    (l@, pv0[ix as int].1.push(site as int)),
                                ));
                                assert(pending_view(pending@) =~~= pending_add(
                                    pv0,
                                    l@,
                                    site as int,
                                ));
                                lemma_sites_wf_add(cur.pending, grown, l@, site as int, grown);
                            }
                        },
                        None => {
                            let mut v0: Vec<usize> = Vec::new();
                            v0.push(site);
                            pending.push((l, v0));
                            proof {
                                assert(pending_view(pending@) =~~= pending_add(
                                    cur.pending,
                                    l@,
                                    site as int,
                                ));
                                lemma_sites_wf_add(cur.pending, grown, l@, site as int, grown);
                            }
                        },
                    }
                },
            }
        },
        _ => {
            return Err(AsmError::ExpectedOperand);
        },
    }
    let ghost pend2 = pending_view(pending@);
    let ghost st2 = AsmState { data: cur.data, head: cur.head, labels: cur.labels, pending: pend2 };
    proof {
        assert(sites_wf(pend2, grown));
    }
    if mode == 1 {
        if j + 1 >= toks.len() {
            return match lex_err {
                Some(le) => Err(AsmError::Lex(le)),
                None => Err(AsmError::ExpectedCloseBracket),
            };
        }
        proof {
            assert(tvs[jj + 1] == toks@[jj + 1]@);
        }
        match toks[j + 1].kind {
            TokenKind::CloseSquare => {},
            _ => {
                return Err(AsmError::ExpectedCloseBracket);
            },
        }
        out.encode_basic(op, mode, addr);
        proof {
            assert(out.data@.len() as int == grown);
            assert(asm_from(tvs, lex_err, ii, cur) == asm_from(
                tvs,
                lex_err,
                jj + 2,
                state_push(st2, basic_word(op, mode, addr)),
            ));
        }
        Ok(j + 2)
    } else {
        out.encode_basic(op, mode, addr);
        proof {
            assert(out.data@.len() as int == grown);
            assert(asm_from(tvs, lex_err, ii, cur) == asm_from(
                tvs,
                lex_err,
                jj + 1,
                state_push(st2, basic_word(op, mode, addr)),
            ));
        }
        Ok(j + 1)
    }
}

/// Runs one whole assembly pass over `src` against the word stream `out`:
/// tokenizes, dispatches every directive and instruction, defines labels
/// and patches their forward references. On success the stream holds
/// exactly what the spec-level interpreter computes; on failure the error
/// is exactly the interpreter's, and no usable output is promised.
#[verifier::rlimit(100)]
pub fn assemble_program(out: &mut Serialiser, src: &str) -> (r: Result<(), AsmError>)
    requires
        src@.len() <= SRC_LIMIT,
        old(out).head <= 0x1_0000,
        old(out).data@.len() >= old(out).head,
    ensures
        ({
            let st0 = AsmState {
                data: old(out).data@,
                head: old(out).head as int,
                labels: Seq::empty(),
                pending: Seq::empty(),
            };
            match asm_src(src@, st0) {
                AsmOut::Done(st) => r is Ok && final(out).data@ == st.data && final(out).head
                    == st.head,
                AsmOut::Fail(ev) => r matches Err(e) && e@ == ev,
            }
        }),
{
    let ghost st0 = AsmState {
        data: old(out).data@,
        head: old(out).head as int,
        labels: Seq::empty(),
        pending: Seq::empty(),
    };
    let (toks, lex_err) = tokenize(src);
    let ghost tvs = tok_views(toks@);
    proof {
        lemma_lex_prefix_len(src@, 0);
    }
    let mut labels: Vec<(&str, usize)> = Vec::new();
    let mut pending: Vec<(&str, Vec<usize>)> = Vec::new();
    let mut i: usize = 0;
    proof {
        assert(labels_view(labels@) =~= Seq::<(Seq<char>, int)>::empty());
        assert(pending_view(pending@) =~= Seq::<(Seq<char>, Seq<int>)>::empty());
        assert(st0 =~= (AsmState {
            data: out.data@,
            head: out.head as int,
            labels: labels_view(labels@),
            pending: pending_view(pending@),
        }));
    }
    while i < toks.len()
        invariant
            tvs == tok_views(toks@),
            tvs.len() == toks@.len(),
            lex_prefix(src@, 0).0 == tvs,
            lex_prefix(src@, 0).1 == lex_err,
            st0 == (AsmState {
                data: old(out).data@,
                head: old(out).head as int,
                labels: Seq::<(Seq<char>, int)>::empty(),
                pending: Seq::<(Seq<char>, Seq<int>)>::empty(),
            }),
            driver_inv(
                tvs,
                lex_err,
                st0,
                *out,
                labels_view(labels@),
                pending_view(pending@),
                i as int,
            ),
        decreases toks@.len() - i,
    {
        let t = toks[i];
        proof {
            assert(tvs[i as int] == toks@[i as int]@);
        }
        match t.kind {
            TokenKind::DotWord(w) => {
                match step_dotword(
                    out,
                    &toks,
                    lex_err,
                    i,
                    w,
                    Ghost(tvs),
                    Ghost(st0),
                    Ghost(labels_view(labels@)),
                    Ghost(pending_view(pending@)),
                ) {
                    Ok(i2) => {
                        i = i2;
                    },
                    Err(e) => {
                        return Err(e);
                    },
                }
            },
            TokenKind::CurrentInst => {
                match step_org(
                    out,
                    &toks,
                    lex_err,
                    i,
                    Ghost(tvs),
                    Ghost(st0),
                    Ghost(labels_view(labels@)),
                    Ghost(pending_view(pending@)),
                ) {
                    Ok(i2) => {
                        i = i2;
                    },
                    Err(e) => {
                        return Err(e);
                    },
                }
            },
            TokenKind::Word(name) => {
                if i + 1 >= toks.len() {
                    // The definition check peeks one token ahead; a lexical
                    // failure standing there is hit first.
                    if let Some(le) = lex_err {
                        proof {
                            let cur = AsmState {
                                data: out.data@,
                                head: out.head as int,
                                labels: labels_view(labels@),
                                pending: pending_view(pending@),
                            };
                            assert(asm_from(tvs, lex_err, i as int, cur) == AsmOut::Fail(
                                AsmErrView::Lex(le),
                            ));
                        }
                        return Err(AsmError::Lex(le));
                    }
                }
                let mut is_def = false;
                if i + 1 < toks.len() {
                    proof {
                        assert(tvs[i + 1 as int] == toks@[i + 1 as int]@);
                    }
                    match toks[i + 1].kind {
                        TokenKind::DoubleDot => {
                            is_def = true;
                        },
                        _ => {},
                    }
                }
                if is_def {
                    i = step_label_def(
                        out,
                        &mut labels,
                        &mut pending,
                        &toks,
                        i,
                        name,
                        lex_err,
                        Ghost(tvs),
                        Ghost(st0),
                    );
                } else {
                    match step_instruction(
                        out,
                        &labels,
                        &mut pending,
                        &toks,
                        i,
                        name,
                        lex_err,
                        Ghost(tvs),
                        Ghost(st0),
                    ) {
                        Ok(i2) => {
                            i = i2;
                        },
                        Err(e) => {
                            return Err(e);
                        },
                    }
                }
            },
            _ => {
                proof {
                    let cur = AsmState {
                        data: out.data@,
                        head: out.head as int,
                        labels: labels_view(labels@),
                        pending: pending_view(pending@),
                    };
                    assert(asm_from(tvs, lex_err, i as int, cur) == AsmOut::Fail(
                        AsmErrView::UnexpectedToken,
                    ));
                }
                return Err(AsmError::UnexpectedToken);
            },
        }
    }
    let ghost curf = AsmState {
        data: out.data@,
        head: out.head as int,
        labels: labels_view(labels@),
        pending: pending_view(pending@),
    };
    if let Some(le) = lex_err {
        proof {
            assert(asm_from(tvs, lex_err, i as int, curf) == AsmOut::Fail(AsmErrView::Lex(le)));
        }
        return Err(AsmError::Lex(le));
    }
    if pending.len() > 0 {
        let counts = pending_counts_exec(&pending);
        proof {
            assert(asm_from(tvs, lex_err, i as int, curf) == AsmOut::Fail(
                AsmErrView::UnresolvedLabels(pending_counts(pending_view(pending@))),
            ));
        }
        return Err(AsmError::UnresolvedLabels(counts));
    }
    proof {
        assert(asm_from(tvs, lex_err, i as int, curf) == AsmOut::Done(curf));
    }
    Ok(())
}

} // verus!
