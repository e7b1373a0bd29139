//! Translation of raw source bytes into an instruction list.
//!
//! A single left-to-right scan turns each of the eight meaningful bytes into
//! one instruction; `[` and `]` are resolved to each other through a stack of
//! pending open positions, so that every loop instruction carries the index of
//! its partner in the finished list.

use vstd::prelude::*;

verus! {

/// The ASCII bytes of the eight instruction characters `>` `<` `+` `-` `.`
/// `,` `[` `]`.
pub const MOVE_RIGHT_BYTE: u8 = 62;

pub const MOVE_LEFT_BYTE: u8 = 60;

pub const INCREMENT_BYTE: u8 = 43;

pub const DECREMENT_BYTE: u8 = 45;

pub const WRITE_BYTE: u8 = 46;

pub const READ_BYTE: u8 = 44;

pub const OPEN_BYTE: u8 = 91;

pub const CLOSE_BYTE: u8 = 93;

/// One executable instruction. The two loop variants carry the index of their
/// matching partner in the finished instruction list (not a source byte
/// offset; the two coincide because translation is one instruction per byte).
#[derive(Clone, Copy, Debug, Eq, PartialEq, Structural)]
pub enum Instruction {
    MoveRight,
    MoveLeft,
    Increment,
    Decrement,
    Write,
    Read,
    OpenLoop { close_position: usize },
    CloseLoop { open_position: usize },
}

/// A lexical or structural defect of the source, detected before any
/// execution; no partial program is ever produced.
#[derive(Clone, Copy, Debug, Eq, PartialEq, Structural)]
pub enum LexError {
    InvalidInstruction(u8),
    UnmatchedOpenLoop { position: usize },
    UnmatchedCloseLoop { position: usize },
}

/// The eight bytes that carry meaning; every other byte is rejected.
pub open spec fn is_instr_byte(b: u8) -> bool {
    ||| b == MOVE_RIGHT_BYTE
    ||| b == MOVE_LEFT_BYTE
    ||| b == INCREMENT_BYTE
    ||| b == DECREMENT_BYTE
    ||| b == WRITE_BYTE
    ||| b == READ_BYTE
    ||| b == OPEN_BYTE
    ||| b == CLOSE_BYTE
}

/// Contribution of one byte to the bracket nesting depth.
pub open spec fn bracket_delta(b: u8) -> int {
    if b == OPEN_BYTE {
        1
    } else if b == CLOSE_BYTE {
        -1
    } else {
        0
    }
}

/// Number of `[` minus number of `]` among the first `i` bytes of `s`.
pub open spec fn depth(s: Seq<u8>, i: int) -> int
    decreases i,
{
    if i <= 0 {
        0
    } else {
        depth(s, i - 1) + bracket_delta(s[i - 1])
    }
}

/// The scan accepts byte `j`: it is one of the eight instruction bytes, and a
/// `]` only where some `[` before it is still open.
pub open spec fn scan_ok_at(s: Seq<u8>, j: int) -> bool {
    is_instr_byte(s[j]) && (s[j] == CLOSE_BYTE ==> depth(s, j) >= 1)
}

/// The scan accepts every byte before `i`.
pub open spec fn prefix_ok(s: Seq<u8>, i: int) -> bool {
    forall|j: int| 0 <= j < i ==> scan_ok_at(s, j)
}

/// A well-formed source: only instruction bytes, every `]` preceded by an open
/// `[`, and no `[` left open at the end.
pub open spec fn well_formed(s: Seq<u8>) -> bool {
    prefix_ok(s, s.len() as int) && depth(s, s.len() as int) == 0
}

/// Byte `f` is where the scan first fails.
pub open spec fn first_failure(s: Seq<u8>, f: int) -> bool {
    0 <= f < s.len() && !scan_ok_at(s, f) && prefix_ok(s, f)
}

/// The `[` at `p` is never closed: the nesting depth stays above its own until
/// the end of the source.
pub open spec fn unmatched_open(s: Seq<u8>, p: int) -> bool {
    &&& 0 <= p < s.len()
    &&& s[p] == OPEN_BYTE
    &&& forall|m: int| p < m <= s.len() ==> depth(s, m) > depth(s, p)
}

/// The `[` at `i` and the `]` at `j` form a matched pair: they sit at the same
/// nesting depth and the depth stays strictly above it in between. For a given
/// source each position has at most one partner.
pub open spec fn bracket_match(s: Seq<u8>, i: int, j: int) -> bool {
    &&& 0 <= i < j < s.len()
    &&& s[i] == OPEN_BYTE
    &&& s[j] == CLOSE_BYTE
    &&& depth(s, j) == depth(s, i) + 1
    &&& forall|m: int| i < m <= j ==> depth(s, m) > depth(s, i)
}

/// The instruction produced for one of the six non-loop bytes.
pub open spec fn fixed_instr(b: u8) -> Instruction {
    if b == MOVE_RIGHT_BYTE {
        Instruction::MoveRight
    } else if b == MOVE_LEFT_BYTE {
        Instruction::MoveLeft
    } else if b == INCREMENT_BYTE {
        Instruction::Increment
    } else if b == DECREMENT_BYTE {
        Instruction::Decrement
    } else if b == WRITE_BYTE {
        Instruction::Write
    } else {
        Instruction::Read
    }
}

/// `ins` is the correct instruction for position `i` of source `s`: the fixed
/// instruction for a non-loop byte, and a loop instruction pointing at the
/// matching partner for `[` and `]`.
pub open spec fn instr_at(s: Seq<u8>, i: int, ins: Instruction) -> bool {
    if s[i] == OPEN_BYTE {
        ins matches Instruction::OpenLoop { close_position } && bracket_match(
            s,
            i,
            close_position as int,
        )
    } else if s[i] == CLOSE_BYTE {
        ins matches Instruction::CloseLoop { open_position } && bracket_match(
            s,
            open_position as int,
            i,
        )
    } else {
        ins == fixed_instr(s[i])
    }
}

/// `prog` is the translation of `s`: one correct instruction per source byte,
/// in source order.
pub open spec fn translation_of(s: Seq<u8>, prog: Seq<Instruction>) -> bool {
    &&& prog.len() == s.len()
    &&& forall|i: int| 0 <= i < s.len() ==> instr_at(s, i, #[trigger] prog[i])
}

/// The error that translation of `s` may report: an invalid byte or an
/// unmatched `]` at the first scan failure, or else the first `[` that is
/// never closed.
pub open spec fn lex_error_for(s: Seq<u8>, e: LexError) -> bool {
    match e {
        LexError::InvalidInstruction(b) => exists|f: int|
            first_failure(s, f) && !is_instr_byte(#[trigger] s[f]) && b == s[f],
        LexError::UnmatchedCloseLoop { position } => first_failure(s, position as int) && s[
            position as int
        ] == CLOSE_BYTE,
        LexError::UnmatchedOpenLoop { position } => {
            &&& prefix_ok(s, s.len() as int)
            &&& depth(s, s.len() as int) > 0
            &&& unmatched_open(s, position as int)
            &&& forall|q: int| 0 <= q < position ==> !unmatched_open(s, q)
        },
    }
}

/// A `[` has at most one matching `]`.
pub proof fn lemma_close_is_unique(s: Seq<u8>, i: int, j1: int, j2: int)
    requires
        bracket_match(s, i, j1),
        bracket_match(s, i, j2),
    ensures
        j1 == j2,
{
    if j1 < j2 {
        assert(depth(s, j1 + 1) == depth(s, j1) + bracket_delta(s[j1]));
        assert(depth(s, j1 + 1) == depth(s, i));
        assert(depth(s, j1 + 1) > depth(s, i));
        assert(false);
    }
    if j2 < j1 {
        assert(depth(s, j2 + 1) == depth(s, j2) + bracket_delta(s[j2]));
        assert(depth(s, j2 + 1) == depth(s, i));
        assert(depth(s, j2 + 1) > depth(s, i));
        assert(false);
    }
}

/// A `]` has at most one matching `[`.
pub proof fn lemma_open_is_unique(s: Seq<u8>, i1: int, i2: int, j: int)
    requires
        bracket_match(s, i1, j),
        bracket_match(s, i2, j),
    ensures
        i1 == i2,
{
    if i1 < i2 {
        assert(depth(s, i2) == depth(s, i1));
        assert(depth(s, i2) > depth(s, i1));
        assert(false);
    }
    if i2 < i1 {
        assert(depth(s, i1) == depth(s, i2));
        assert(depth(s, i1) > depth(s, i2));
        assert(false);
    }
}

/// The loop pairs of a translated program are matched one to one: every loop
/// instruction points at its partner, and the partner points back.
pub proof fn lemma_loop_pairs_are_mutual(s: Seq<u8>, prog: Seq<Instruction>, i: int)
    requires
        translation_of(s, prog),
        0 <= i < prog.len(),
    ensures
        prog[i] matches Instruction::OpenLoop { close_position } ==> i < close_position
            < prog.len() && prog[close_position as int] == (Instruction::CloseLoop {
            open_position: i as usize,
        }),
        prog[i] matches Instruction::CloseLoop { open_position } ==> 0 <= open_position < i
            && prog[open_position as int] == (Instruction::OpenLoop {
            close_position: i as usize,
        }),
{
    assert(instr_at(s, i, prog[i]));
    match prog[i] {
        Instruction::OpenLoop { close_position } => {
            let c = close_position as int;
            assert(bracket_match(s, i, c));
            assert(instr_at(s, c, prog[c]));
            match prog[c] {
                Instruction::CloseLoop { open_position } => {
                    let o = open_position as int;
                    assert(bracket_match(s, o, c));
                    lemma_open_is_unique(s, o, i, c);
                    assert(open_position == i as usize);
                },
                _ => {
                    assert(false);
                },
            }
        },
        Instruction::CloseLoop { open_position } => {
            let o = open_position as int;
            assert(bracket_match(s, o, i));
            assert(instr_at(s, o, prog[o]));
            match prog[o] {
                Instruction::OpenLoop { close_position } => {
                    let c = close_position as int;
                    assert(bracket_match(s, o, c));
                    lemma_close_is_unique(s, o, c, i);
                    assert(close_position == i as usize);
                },
                _ => {
                    assert(false);
                },
            }
        },
        _ => {
        },
    }
}

/// Translation is deterministic: two instruction lists that both translate
/// the same source are equal.
pub proof fn lemma_translation_deterministic(
    s: Seq<u8>,
    p1: Seq<Instruction>,
    p2: Seq<Instruction>,
)
    requires
        translation_of(s, p1),
        translation_of(s, p2),
    ensures
        p1 == p2,
{
    assert forall|i: int| 0 <= i < p1.len() implies p1[i] == p2[i] by {
        assert(instr_at(s, i, p1[i]));
        assert(instr_at(s, i, p2[i]));
        if s[i] == OPEN_BYTE {
            match (p1[i], p2[i]) {
                (
                    Instruction::OpenLoop { close_position: c1 },
                    Instruction::OpenLoop { close_position: c2 },
                ) => {
                    lemma_close_is_unique(s, i, c1 as int, c2 as int);
                },
                _ => {
                    assert(false);
                },
            }
        } else if s[i] == CLOSE_BYTE {
            match (p1[i], p2[i]) {
                (
                    Instruction::CloseLoop { open_position: o1 },
                    Instruction::CloseLoop { open_position: o2 },
                ) => {
                    lemma_open_is_unique(s, o1 as int, o2 as int, i);
                },
                _ => {
                    assert(false);
                },
            }
        }
    }
    assert(p1 =~= p2);
}

/// A `]` with no preceding unmatched `[` — the scan's first failure, at a
/// byte that is a valid instruction — is reported as UnmatchedCloseLoop at
/// exactly that position: no other error value satisfies translation's
/// contract for such a source.
pub proof fn lemma_unmatched_close_is_pinned(s: Seq<u8>, f: int, e: LexError)
    requires
        first_failure(s, f),
        s[f] == CLOSE_BYTE,
        lex_error_for(s, e),
    ensures
        e == (LexError::UnmatchedCloseLoop { position: f as usize }),
{
    match e {
        LexError::InvalidInstruction(b) => {
            let f2 = choose|f2: int|
                first_failure(s, f2) && !is_instr_byte(#[trigger] s[f2]) && b == s[f2];
            if f2 < f {
                assert(scan_ok_at(s, f2));
            }
            if f2 > f {
                assert(scan_ok_at(s, f));
            }
            assert(false);
        },
        LexError::UnmatchedCloseLoop { position } => {
            let p = position as int;
            if p < f {
                assert(scan_ok_at(s, p));
                assert(false);
            }
            if p > f {
                assert(scan_ok_at(s, f));
                assert(false);
            }
        },
        LexError::UnmatchedOpenLoop { position } => {
            assert(scan_ok_at(s, f));
            assert(false);
        },
    }
}

/// A `[` that is never closed, in a source every byte of which passes the
/// scan, makes the source ill-formed, and the only error value that
/// translation's contract then permits is UnmatchedOpenLoop at some unmatched
/// `[` position.
pub proof fn lemma_unmatched_open_is_pinned(s: Seq<u8>, p: int, e: LexError)
    requires
        prefix_ok(s, s.len() as int),
        unmatched_open(s, p),
        lex_error_for(s, e),
    ensures
        !well_formed(s),
        e matches LexError::UnmatchedOpenLoop { position } && unmatched_open(s, position as int),
{
    lemma_depth_nonneg(s, s.len() as int);
    assert(depth(s, s.len() as int) > depth(s, p));
    match e {
        LexError::InvalidInstruction(b) => {
            let f2 = choose|f2: int|
                first_failure(s, f2) && !is_instr_byte(#[trigger] s[f2]) && b == s[f2];
            assert(scan_ok_at(s, f2));
            assert(false);
        },
        LexError::UnmatchedCloseLoop { position } => {
            assert(scan_ok_at(s, position as int));
            assert(false);
        },
        LexError::UnmatchedOpenLoop { position } => {
        },
    }
}

/// The pending-open stack entry at index `k`, holding position `p`, is sound
/// after scanning `i` bytes: it is an `[` before `i` at nesting depth exactly
/// `k`, and the depth has stayed above `k` ever since, so it is still open.
pub open spec fn stack_entry_ok(s: Seq<u8>, p: int, k: int, i: int) -> bool {
    &&& 0 <= p < i
    &&& s[p] == OPEN_BYTE
    &&& depth(s, p) == k
    &&& forall|m: int| p < m <= i ==> depth(s, m) > k
}

/// The pending-open stack is sound after scanning `i` bytes: it holds, bottom
/// to top, exactly the still-open `[` positions, the one at depth `k` at
/// index `k`.
pub open spec fn stack_ok(s: Seq<u8>, st: Seq<usize>, i: int) -> bool {
    &&& st.len() == depth(s, i)
    &&& forall|k: int| 0 <= k < st.len() ==> #[trigger] stack_entry_ok(s, st[k] as int, k, i)
}

/// The output slots are sound after scanning `i` bytes: one slot per byte,
/// every filled slot holds the correct instruction for its position, and the
/// unfilled slots are exactly the still-open `[` positions on the stack.
pub open spec fn slots_ok(s: Seq<u8>, st: Seq<usize>, fp: Seq<Option<Instruction>>, i: int) -> bool {
    &&& fp.len() == i
    &&& forall|j: int|
        0 <= j < i ==> match #[trigger] fp[j] {
            Some(ins) => instr_at(s, j, ins),
            None => s[j] == OPEN_BYTE && exists|k: int| 0 <= k < st.len() && st[k] == j,
        }
    &&& forall|k: int| 0 <= k < st.len() ==> 0 <= #[trigger] st[k] < i && fp[st[k] as int] is None
}

/// While the scan has accepted every byte so far, the nesting depth of every
/// prefix is non-negative.
pub proof fn lemma_depth_nonneg(s: Seq<u8>, i: int)
    requires
        prefix_ok(s, i),
    ensures
        forall|m: int| 0 <= m <= i ==> depth(s, m) >= 0,
    decreases i,
{
    if i > 0 {
        lemma_depth_nonneg(s, i - 1);
        assert(scan_ok_at(s, i - 1));
        assert(depth(s, i) == depth(s, i - 1) + bracket_delta(s[i - 1]));
        assert(depth(s, i - 1) >= 0);
        assert(depth(s, i) >= 0);
    }
}

/// Translate raw source bytes into an instruction list.
///
/// Succeeds exactly on well-formed sources, producing one instruction per
/// byte with every loop pair mutually resolved; otherwise reports the first
/// invalid byte or unmatched `]` that the scan meets, or, when the scan
/// passes, the first `[` that is never closed.
pub fn translate(source: &[u8]) -> (r: Result<Vec<Instruction>, LexError>)
    ensures
        match r {
            Ok(prog) => well_formed(source@) && translation_of(source@, prog@),
            Err(e) => lex_error_for(source@, e),
        },
        r is Ok <==> well_formed(source@),
{
    let ghost s = source@;
    let n = source.len();
    let mut stack: Vec<usize> = Vec::new();
    let mut first_pass: Vec<Option<Instruction>> = Vec::new();
    let mut position: usize = 0;
    while position < n
        invariant
            n == s.len(),
            s == source@,
            position <= n,
            prefix_ok(s, position as int),
            stack_ok(s, stack@, position as int),
            slots_ok(s, stack@, first_pass@, position as int),
        decreases n - position,
    {
        let byte = source[position];
        let ghost st_pre = stack@;
        let ghost fp_pre = first_pass@;
        proof {
            assert(depth(s, position + 1) == depth(s, position as int) + bracket_delta(
                s[position as int],
            ));
        }
        let fixed: Option<Instruction> = if byte == MOVE_RIGHT_BYTE {
            Some(Instruction::MoveRight)
        } else if byte == MOVE_LEFT_BYTE {
            Some(Instruction::MoveLeft)
        } else if byte == INCREMENT_BYTE {
            Some(Instruction::Increment)
        } else if byte == DECREMENT_BYTE {
            Some(Instruction::Decrement)
        } else if byte == WRITE_BYTE {
            Some(Instruction::Write)
        } else if byte == READ_BYTE {
            Some(Instruction::Read)
        } else {
            None
        };
        if let Some(ins) = fixed {
            first_pass.push(Some(ins));
            proof {
                let st1 = stack@;
                let fp1 = first_pass@;
                assert(bracket_delta(s[position as int]) == 0);
                assert(depth(s, position + 1) == depth(s, position as int));
                assert forall|k: int| 0 <= k < st1.len() implies #[trigger] stack_entry_ok(
                    s,
                    st1[k] as int,
                    k,
                    position + 1,
                ) by {
                    assert(stack_entry_ok(s, st1[k] as int, k, position as int));
                }
                assert(instr_at(s, position as int, ins));
                assert forall|j: int| 0 <= j < position + 1 implies (match #[trigger] fp1[j] {
                    Some(ins2) => instr_at(s, j, ins2),
                    None => s[j] == OPEN_BYTE && exists|k: int|
                        0 <= k < st1.len() && st1[k] == j,
                }) by {
                    if j < position {
                        assert(fp1[j] == fp_pre[j]);
                        if fp_pre[j] is None {
                            let k = choose|k: int| 0 <= k < st1.len() && st1[k] == j;
                            assert(0 <= k < st1.len() && st1[k] == j);
                        }
                    }
                }
                assert forall|k: int|
                    0 <= k < st1.len() implies 0 <= #[trigger] st1[k] < position + 1 && fp1[st1[k] as int] is None by {
                    assert(st1[k] < position);
                    assert(fp1[st1[k] as int] == fp_pre[st1[k] as int]);
                }
            }
        } else if byte == OPEN_BYTE {
            stack.push(position);
            first_pass.push(None);
            proof {
                let st1 = stack@;
                let fp1 = first_pass@;
                let k0 = st1.len() - 1;
                assert(st1[k0] == position);
                assert(stack_entry_ok(s, position as int, k0, position + 1));
                assert forall|k: int| 0 <= k < st1.len() implies #[trigger] stack_entry_ok(
                    s,
                    st1[k] as int,
                    k,
                    position + 1,
                ) by {
                    if k < k0 {
                        assert(st1[k] == st_pre[k]);
                        assert(stack_entry_ok(s, st1[k] as int, k, position as int));
                    }
                }
                assert forall|j: int| 0 <= j < position + 1 implies (match #[trigger] fp1[j] {
                    Some(ins2) => instr_at(s, j, ins2),
                    None => s[j] == OPEN_BYTE && exists|k: int|
                        0 <= k < st1.len() && st1[k] == j,
                }) by {
                    if j == position as int {
                        assert(st1[k0] == j);
                        assert(0 <= k0 < st1.len() && st1[k0] == j);
                    } else {
                        assert(fp1[j] == fp_pre[j]);
                        if fp_pre[j] is None {
                            let k = choose|k: int| 0 <= k < st_pre.len() && st_pre[k] == j;
                            assert(st1[k] == st_pre[k]);
                            assert(0 <= k < st1.len() && st1[k] == j);
                        }
                    }
                }
                assert forall|k: int|
                    0 <= k < st1.len() implies 0 <= #[trigger] st1[k] < position + 1 && fp1[st1[k] as int] is None by {
                    if k < k0 {
                        assert(st1[k] == st_pre[k]);
                        assert(st1[k] < position);
                        assert(fp1[st1[k] as int] == fp_pre[st1[k] as int]);
                    } else {
                        assert(st1[k] == position);
                        assert(fp1[position as int] is None);
                    }
                }
            }
        } else if byte == CLOSE_BYTE {
            if stack.len() == 0 {
                proof {
                    assert(depth(s, position as int) == 0);
                    assert(!scan_ok_at(s, position as int));
                    assert(first_failure(s, position as int));
                    assert(!well_formed(s)) by {
                        if prefix_ok(s, s.len() as int) {
                            assert(scan_ok_at(s, position as int));
                        }
                    }
                }
                return Err(LexError::UnmatchedCloseLoop { position });
            }
            let open_position = match stack.pop() {
                Some(p) => p,
                None => {
                    proof {
                        assert(false);
                    }
                    0
                },
            };
            proof {
                let k = stack@.len() as int;
                assert(st_pre[k] == open_position);
                assert(stack_entry_ok(s, open_position as int, k, position as int));
                assert(depth(s, position as int) == k + 1);
                assert(bracket_match(s, open_position as int, position as int));
                assert(open_position < position);
                assert(fp_pre.len() == position);
            }
            first_pass[open_position] = Some(
                Instruction::OpenLoop { close_position: position },
            );
            first_pass.push(Some(Instruction::CloseLoop { open_position }));
            proof {
                let st1 = stack@;
                let op = open_position as int;
                let fp1 = first_pass@;
                assert(depth(s, position + 1) == st1.len());
                assert forall|k: int| 0 <= k < st1.len() implies #[trigger] stack_entry_ok(
                    s,
                    st1[k] as int,
                    k,
                    position + 1,
                ) by {
                    assert(stack_entry_ok(s, st1[k] as int, k, position as int));
                }
                assert(instr_at(s, op, Instruction::OpenLoop { close_position: position }));
                assert(instr_at(
                    s,
                    position as int,
                    Instruction::CloseLoop { open_position },
                ));
                assert forall|j: int| 0 <= j < position + 1 implies match #[trigger] fp1[j] {
                    Some(ins) => instr_at(s, j, ins),
                    None => s[j] == OPEN_BYTE && exists|k: int|
                        0 <= k < st1.len() && st1[k] == j,
                } by {
                    if j < position && j != op && fp1[j] is None {
                        assert(fp_pre[j] is None);
                        let k = choose|k: int| 0 <= k < st_pre.len() && st_pre[k] == j;
                        assert(stack_entry_ok(s, st_pre[k] as int, k, position as int));
                        assert(st_pre[k] as int == j);
                        assert(depth(s, j) == k);
                        assert(k != st1.len());
                        assert(k < st1.len());
                        assert(st1[k] == st_pre[k]);
                        assert(st1[k] == j);
                    }
                }
                assert forall|k: int|
                    0 <= k < st1.len() implies 0 <= #[trigger] st1[k] < position + 1
                    && fp1[st1[k] as int] is None by {
                    assert(stack_entry_ok(s, st1[k] as int, k, position as int));
                    assert(st1[k] as int != op);
                }
            }
        } else {
            proof {
                assert(!is_instr_byte(s[position as int]));
                assert(first_failure(s, position as int));
                assert(!well_formed(s)) by {
                    if prefix_ok(s, s.len() as int) {
                        assert(scan_ok_at(s, position as int));
                    }
                }
            }
            return Err(LexError::InvalidInstruction(byte));
        }
        proof {
            assert forall|j: int| 0 <= j < position + 1 implies scan_ok_at(s, j) by {
                if j == position as int {
                    assert(is_instr_byte(s[j]));
                }
            }
        }
        position = position + 1;
    }
    if stack.len() > 0 {
        let reported = stack[0];
        proof {
            let st = stack@;
            let first = reported as int;
            assert(stack_entry_ok(s, first, 0, n as int));
            assert(depth(s, n as int) == st.len());
            assert(unmatched_open(s, first));
            lemma_depth_nonneg(s, n as int);
            assert forall|q: int| 0 <= q < first implies !unmatched_open(s, q) by {
                if unmatched_open(s, q) {
                    let d = depth(s, q);
                    assert(d >= 0);
                    assert(depth(s, n as int) > d);
                    assert(stack_entry_ok(s, st[d] as int, d, n as int));
                    let pd = st[d] as int;
                    if q < pd {
                        assert(depth(s, pd) > d);
                    } else if q > pd {
                        assert(depth(s, q) > d);
                    } else {
                        if d > 0 {
                            assert(depth(s, first) == 0);
                            if pd < first {
                                assert(depth(s, first) > d);
                            }
                        }
                    }
                    assert(false);
                }
            }
            assert(lex_error_for(s, LexError::UnmatchedOpenLoop { position: reported }));
        }
        return Err(LexError::UnmatchedOpenLoop { position: reported });
    }
    let mut prog: Vec<Instruction> = Vec::new();
    let mut i: usize = 0;
    while i < n
        invariant
            n == s.len(),
            s == source@,
            i <= n,
            stack@.len() == 0,
            slots_ok(s, stack@, first_pass@, n as int),
            prog@.len() == i,
            forall|j: int| 0 <= j < i ==> instr_at(s, j, #[trigger] prog@[j]),
        decreases n - i,
    {
        let slot = first_pass[i];
        match slot {
            Some(ins) => {
                prog.push(ins);
            },
            None => {
                proof {
                    assert(false);
                }
            },
        }
        i = i + 1;
    }
    proof {
        assert(well_formed(s));
        assert(translation_of(s, prog@));
    }
    Ok(prog)
}

} // verus!
