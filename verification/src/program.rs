//! Source syntax and the compiler: filtering the source down to its
//! instruction characters, bracket matching, and the resolved program.

use vstd::prelude::*;

verus! {

/// One resolved instruction. The payload of `Open` and `Close` is the index,
/// within the resolved program, of the matching partner bracket, so that a
/// taken jump is a single index assignment during execution.
#[derive(Clone, Copy, Debug, PartialEq, Eq, Structural)]
pub enum Instruction {
    MoveRight,
    MoveLeft,
    Increment,
    Decrement,
    Output,
    Input,
    Open(usize),
    Close(usize),
}

/// The one fatal compile-time condition: brackets that do not nest properly.
#[derive(Clone, Copy, Debug, PartialEq, Eq, Structural)]
pub enum ParseError {
    UnmatchedBrackets,
}

/// The eight characters that are instructions; every other character of a
/// source text is a comment and is discarded.
pub open spec fn is_instr_char(c: char) -> bool {
    c == '>' || c == '<' || c == '+' || c == '-' || c == '.' || c == ',' || c == '[' || c == ']'
}

/// The source text reduced to its instruction characters, in order.
pub open spec fn instr_chars(source: Seq<char>) -> Seq<char>
    decreases source.len(),
{
    if source.len() == 0 {
        Seq::empty()
    } else {
        let rest = instr_chars(source.drop_last());
        if is_instr_char(source.last()) {
            rest.push(source.last())
        } else {
            rest
        }
    }
}

/// The contribution of one character to the bracket nesting depth.
pub open spec fn bracket_delta(c: char) -> int {
    if c == '[' {
        1
    } else if c == ']' {
        -1
    } else {
        0
    }
}

/// Opening brackets minus closing brackets over a whole sequence.
pub open spec fn net_depth(s: Seq<char>) -> int
    decreases s.len(),
{
    if s.len() == 0 {
        0
    } else {
        net_depth(s.drop_last()) + bracket_delta(s.last())
    }
}

/// Brackets nest properly: the whole sequence closes every bracket it opens,
/// and no prefix closes a bracket that is not open.
pub open spec fn balanced(s: Seq<char>) -> bool {
    &&& net_depth(s) == 0
    &&& forall|k: int| 0 <= k <= s.len() ==> net_depth(#[trigger] s.take(k)) >= 0
}

/// The bracket at `i` opens exactly the bracket that closes at `j`: the
/// segment strictly between them is balanced, and no prefix of that segment
/// dips below the nesting level of the pair itself.
pub open spec fn is_match(s: Seq<char>, i: int, j: int) -> bool {
    &&& 0 <= i < j < s.len()
    &&& s[i] == '['
    &&& s[j] == ']'
    &&& net_depth(s.subrange(i + 1, j)) == 0
    &&& forall|k: int| i < k < j ==> net_depth(#[trigger] s.subrange(i + 1, k)) >= 0
}

/// The index of the partner of the bracket at `i` (meaningful only where a
/// partner exists, as it does in every balanced sequence).
pub open spec fn spec_target(ops: Seq<char>, i: int) -> usize {
    if ops[i] == '[' {
        choose|j: usize| is_match(ops, i, j as int)
    } else {
        choose|j: usize| is_match(ops, j as int, i)
    }
}

/// The instruction that the character at `i` compiles to.
pub open spec fn spec_instruction(ops: Seq<char>, i: int) -> Instruction {
    let c = ops[i];
    if c == '>' {
        Instruction::MoveRight
    } else if c == '<' {
        Instruction::MoveLeft
    } else if c == '+' {
        Instruction::Increment
    } else if c == '-' {
        Instruction::Decrement
    } else if c == '.' {
        Instruction::Output
    } else if c == ',' {
        Instruction::Input
    } else if c == '[' {
        Instruction::Open(spec_target(ops, i))
    } else {
        Instruction::Close(spec_target(ops, i))
    }
}

/// The resolved program that a sequence of instruction characters compiles to.
pub open spec fn spec_parse(ops: Seq<char>) -> Seq<Instruction> {
    Seq::new(ops.len(), |i: int| spec_instruction(ops, i))
}

/// Every bracket instruction of `prog` carries the index of the partner of
/// its own source character: the resolved program is well formed.
pub open spec fn prog_wf(ops: Seq<char>, prog: Seq<Instruction>) -> bool {
    &&& prog.len() == ops.len()
    &&& forall|i: int|
        0 <= i < prog.len() ==> match #[trigger] prog[i] {
            Instruction::Open(t) => is_match(ops, i, t as int),
            Instruction::Close(t) => is_match(ops, t as int, i),
            _ => true,
        }
}

proof fn lemma_net_snoc(s: Seq<char>, a: int, b: int)
    requires
        0 <= a <= b < s.len(),
    ensures
        net_depth(s.subrange(a, b + 1)) == net_depth(s.subrange(a, b)) + bracket_delta(s[b]),
{
    assert(s.subrange(a, b + 1).drop_last() =~= s.subrange(a, b));
    assert(s.subrange(a, b + 1).last() == s[b]);
}

proof fn lemma_net_additive(s: Seq<char>, a: int, b: int, c: int)
    requires
        0 <= a <= b <= c <= s.len(),
    ensures
        net_depth(s.subrange(a, c)) == net_depth(s.subrange(a, b)) + net_depth(s.subrange(b, c)),
    decreases c - b,
{
    if b == c {
        assert(s.subrange(b, c) =~= Seq::<char>::empty());
    } else {
        lemma_net_additive(s, a, b, c - 1);
        lemma_net_snoc(s, a, c - 1);
        lemma_net_snoc(s, b, c - 1);
    }
}

/// An opening bracket has at most one partner.
proof fn lemma_match_unique_open(s: Seq<char>, i: int, j1: int, j2: int)
    requires
        is_match(s, i, j1),
        is_match(s, i, j2),
    ensures
        j1 == j2,
{
    if j1 < j2 {
        lemma_net_snoc(s, i + 1, j1);
        assert(net_depth(s.subrange(i + 1, j1 + 1)) == -1);
        if j1 + 1 < j2 {
            assert(net_depth(s.subrange(i + 1, j1 + 1)) >= 0);
        }
    } else if j2 < j1 {
        lemma_net_snoc(s, i + 1, j2);
        assert(net_depth(s.subrange(i + 1, j2 + 1)) == -1);
        if j2 + 1 < j1 {
            assert(net_depth(s.subrange(i + 1, j2 + 1)) >= 0);
        }
    }
}

/// A closing bracket has at most one partner.
proof fn lemma_match_unique_close(s: Seq<char>, i1: int, i2: int, j: int)
    requires
        is_match(s, i1, j),
        is_match(s, i2, j),
    ensures
        i1 == i2,
{
    if i1 < i2 {
        lemma_net_additive(s, i1 + 1, i2, j);
        lemma_net_additive(s, i2, i2 + 1, j);
        assert(net_depth(s.subrange(i2, i2 + 1)) == 1) by {
            lemma_net_snoc(s, i2, i2);
            assert(s.subrange(i2, i2) =~= Seq::<char>::empty());
        }
        assert(net_depth(s.subrange(i1 + 1, i2)) == -1);
    } else if i2 < i1 {
        lemma_net_additive(s, i2 + 1, i1, j);
        lemma_net_additive(s, i1, i1 + 1, j);
        assert(net_depth(s.subrange(i1, i1 + 1)) == 1) by {
            lemma_net_snoc(s, i1, i1);
            assert(s.subrange(i1, i1) =~= Seq::<char>::empty());
        }
        assert(net_depth(s.subrange(i2 + 1, i1)) == -1);
    }
}

/// With a witness in hand, `spec_target` is that witness.
proof fn lemma_spec_target_open(ops: Seq<char>, i: int, j: usize)
    requires
        is_match(ops, i, j as int),
    ensures
        spec_target(ops, i) == j,
{
    let jc = choose|j2: usize| is_match(ops, i, j2 as int);
    lemma_match_unique_open(ops, i, jc as int, j as int);
}

/// With a witness in hand, `spec_target` of the closing side is that witness.
proof fn lemma_spec_target_close(ops: Seq<char>, i: usize, j: int)
    requires
        is_match(ops, i as int, j),
    ensures
        spec_target(ops, j) == i,
{
    let ic = choose|i2: usize| is_match(ops, i2 as int, j);
    lemma_match_unique_close(ops, ic as int, i as int, j);
}

/// Law: in a compiled program the brackets pair off mutually — the partner
/// of an `Open` lies to its right, is a `Close`, and points back at the
/// `Open`, and symmetrically for a `Close`.
pub proof fn lemma_partners_mutual(ops: Seq<char>, prog: Seq<Instruction>, i: int)
    requires
        prog == spec_parse(ops),
        prog_wf(ops, prog),
        prog.len() <= usize::MAX,
        0 <= i < prog.len(),
    ensures
        match prog[i] {
            Instruction::Open(t) => {
                &&& i < t < prog.len()
                &&& prog[t as int] == Instruction::Close(i as usize)
            },
            Instruction::Close(t) => {
                &&& t < i
                &&& prog[t as int] == Instruction::Open(i as usize)
            },
            _ => true,
        },
{
    match prog[i] {
        Instruction::Open(t) => {
            assert(is_match(ops, i, t as int));
            lemma_spec_target_close(ops, i as usize, t as int);
        },
        Instruction::Close(t) => {
            assert(is_match(ops, t as int, i));
            lemma_spec_target_open(ops, t as int, i as usize);
        },
        _ => (),
    }
}

proof fn lemma_instr_chars_snoc(s: Seq<char>, i: int)
    requires
        0 <= i < s.len(),
    ensures
        instr_chars(s.take(i + 1)) == if is_instr_char(s[i]) {
            instr_chars(s.take(i)).push(s[i])
        } else {
            instr_chars(s.take(i))
        },
{
    assert(s.take(i + 1).drop_last() =~= s.take(i));
    assert(s.take(i + 1).last() == s[i]);
}

proof fn lemma_instr_chars_pred(s: Seq<char>)
    ensures
        forall|k: int|
            0 <= k < instr_chars(s).len() ==> is_instr_char(#[trigger] instr_chars(s)[k]),
    decreases s.len(),
{
    if s.len() > 0 {
        lemma_instr_chars_pred(s.drop_last());
        let rest = instr_chars(s.drop_last());
        assert forall|k: int|
            0 <= k < instr_chars(s).len() implies is_instr_char(
            #[trigger] instr_chars(s)[k],
        ) by {
            if is_instr_char(s.last()) && k == rest.len() {
                assert(instr_chars(s)[k] == s.last());
            } else {
                assert(instr_chars(s)[k] == rest[k]);
            }
        }
    }
}

/// Scan forward from the opening bracket at `i` for its partner, tracking the
/// nesting depth; under `balanced` the partner is always found.
fn find_forward(ops: &Vec<char>, i: usize) -> (j: usize)
    requires
        balanced(ops@),
        i < ops@.len(),
        ops@[i as int] == '[',
    ensures
        is_match(ops@, i as int, j as int),
{
    let n = ops.len();
    let mut index = i + 1;
    let mut depth: usize = 1;
    while index < n
        invariant
            balanced(ops@),
            n == ops@.len(),
            i < n,
            ops@[i as int] == '[',
            i + 1 <= index <= n,
            1 <= depth <= index - i,
            depth as int == 1 + net_depth(ops@.subrange(i as int + 1, index as int)),
            forall|k: int|
                i < k <= index ==> net_depth(#[trigger] ops@.subrange(i as int + 1, k)) >= 0,
        decreases n - index,
    {
        let c = ops[index];
        proof {
            lemma_net_snoc(ops@, i as int + 1, index as int);
        }
        if c == '[' {
            depth += 1;
        } else if c == ']' {
            depth -= 1;
            if depth == 0 {
                return index;
            }
        }
        index += 1;
    }
    proof {
        // the scan ran off the end: the bracket at `i` never closes, which
        // contradicts `balanced`
        assert(ops@.take(n as int) =~= ops@);
        lemma_net_additive(ops@, 0, i as int, n as int);
        lemma_net_additive(ops@, i as int, i as int + 1, n as int);
        lemma_net_snoc(ops@, i as int, i as int);
        assert(ops@.subrange(i as int, i as int) =~= Seq::<char>::empty());
        assert(ops@.take(i as int) == ops@.subrange(0, i as int));
        assert(ops@.take(n as int) == ops@.subrange(0, n as int));
        assert(net_depth(ops@.take(i as int)) >= 0);
        assert(false);
    }
    unreached()
}

/// Scan backward from the closing bracket at `j` for its partner, tracking the
/// nesting depth; under `balanced` the partner is always found.
fn find_backward(ops: &Vec<char>, j: usize) -> (i: usize)
    requires
        balanced(ops@),
        j < ops@.len(),
        ops@[j as int] == ']',
    ensures
        is_match(ops@, i as int, j as int),
{
    proof {
        if j == 0 {
            lemma_net_snoc(ops@, 0, 0);
            assert(ops@.subrange(0, 0) =~= Seq::<char>::empty());
            assert(ops@.take(1) == ops@.subrange(0, 1));
            assert(net_depth(ops@.take(1)) == -1);
            assert(false);
        }
    }
    let mut index = j - 1;
    let mut depth: usize = 1;
    loop
        invariant
            balanced(ops@),
            0 < j < ops@.len(),
            ops@[j as int] == ']',
            index <= j - 1,
            1 <= depth <= j - index,
            depth as int == 1 - net_depth(ops@.subrange(index as int + 1, j as int)),
            forall|m: int|
                index < m <= j ==> net_depth(#[trigger] ops@.subrange(m, j as int)) <= 0,
        decreases index,
    {
        let c = ops[index];
        proof {
            lemma_net_additive(ops@, index as int, index as int + 1, j as int);
            lemma_net_snoc(ops@, index as int, index as int);
            assert(ops@.subrange(index as int, index as int) =~= Seq::<char>::empty());
        }
        if c == '[' {
            depth -= 1;
            if depth == 0 {
                proof {
                    assert forall|k: int| index < k < j implies net_depth(
                        #[trigger] ops@.subrange(index as int + 1, k),
                    ) >= 0 by {
                        lemma_net_additive(ops@, index as int + 1, k, j as int);
                    }
                }
                return index;
            }
        } else if c == ']' {
            depth += 1;
        }
        if index == 0 {
            proof {
                // the scan ran past the start: the bracket at `j` never
                // opened, which contradicts `balanced`
                lemma_net_snoc(ops@, 0, j as int);
                assert(ops@.take(j as int) == ops@.subrange(0, j as int));
                assert(ops@.take(j as int + 1) == ops@.subrange(0, j as int + 1));
                assert(net_depth(ops@.take(j as int + 1)) >= 0);
                assert(false);
            }
        }
        index -= 1;
    }
}

/// Compile a source text: discard every character that is not an instruction,
/// and resolve each bracket to the index of its partner. Fails, with no
/// program produced, exactly when the brackets of the source do not nest
/// properly.
pub fn parse(source: &str) -> (result: Result<Vec<Instruction>, ParseError>)
    ensures
        match result {
            Ok(prog) => {
                &&& balanced(instr_chars(source@))
                &&& prog@ == spec_parse(instr_chars(source@))
                &&& prog_wf(instr_chars(source@), prog@)
            },
            Err(e) => {
                &&& !balanced(instr_chars(source@))
                &&& e == ParseError::UnmatchedBrackets
            },
        },
{
    let n = source.unicode_len();
    let mut ops: Vec<char> = Vec::new();
    let mut i: usize = 0;
    while i < n
        invariant
            n == source@.len(),
            i <= n,
            ops@ == instr_chars(source@.take(i as int)),
        decreases n - i,
    {
        let c = source.get_char(i);
        proof {
            lemma_instr_chars_snoc(source@, i as int);
        }
        if c == '>' || c == '<' || c == '+' || c == '-' || c == '.' || c == ',' || c == '['
            || c == ']' {
            ops.push(c);
        }
        i += 1;
    }
    proof {
        assert(source@.take(n as int) =~= source@);
        lemma_instr_chars_pred(source@);
    }
    // first pass: check that the brackets nest properly
    let m = ops.len();
    let mut depth: usize = 0;
    let mut k: usize = 0;
    while k < m
        invariant
            ops@ == instr_chars(source@),
            m == ops@.len(),
            k <= m,
            depth <= k,
            depth as int == net_depth(ops@.take(k as int)),
            forall|p: int| 0 <= p <= k ==> net_depth(#[trigger] ops@.take(p)) >= 0,
        decreases m - k,
    {
        let c = ops[k];
        proof {
            lemma_net_snoc(ops@, 0, k as int);
            assert(ops@.take(k as int) == ops@.subrange(0, k as int));
            assert(ops@.take(k as int + 1) == ops@.subrange(0, k as int + 1));
        }
        if c == '[' {
            depth += 1;
        } else if c == ']' {
            if depth == 0 {
                proof {
                    assert(net_depth(ops@.take(k as int + 1)) < 0);
                }
                return Err(ParseError::UnmatchedBrackets);
            }
            depth -= 1;
        }
        k += 1;
    }
    proof {
        assert(ops@.take(m as int) =~= ops@);
    }
    if depth != 0 {
        return Err(ParseError::UnmatchedBrackets);
    }
    // second pass: emit one instruction per retained character, with the
    // partner of each bracket resolved by a directional scan
    let mut prog: Vec<Instruction> = Vec::new();
    let mut idx: usize = 0;
    while idx < m
        invariant
            ops@ == instr_chars(source@),
            balanced(ops@),
            m == ops@.len(),
            idx <= m,
            prog@.len() == idx,
            forall|p: int| 0 <= p < ops@.len() ==> is_instr_char(#[trigger] ops@[p]),
            forall|p: int| 0 <= p < idx ==> prog@[p] == spec_instruction(ops@, p),
            forall|p: int|
                0 <= p < idx ==> match #[trigger] prog@[p] {
                    Instruction::Open(t) => is_match(ops@, p, t as int),
                    Instruction::Close(t) => is_match(ops@, t as int, p),
                    _ => true,
                },
        decreases m - idx,
    {
        let c = ops[idx];
        if c == '>' {
            prog.push(Instruction::MoveRight);
        } else if c == '<' {
            prog.push(Instruction::MoveLeft);
        } else if c == '+' {
            prog.push(Instruction::Increment);
        } else if c == '-' {
            prog.push(Instruction::Decrement);
        } else if c == '.' {
            prog.push(Instruction::Output);
        } else if c == ',' {
            prog.push(Instruction::Input);
        } else if c == '[' {
            let t = find_forward(&ops, idx);
            proof {
                lemma_spec_target_open(ops@, idx as int, t);
            }
            prog.push(Instruction::Open(t));
        } else {
            let t = find_backward(&ops, idx);
            proof {
                lemma_spec_target_close(ops@, t, idx as int);
            }
            prog.push(Instruction::Close(t));
        }
        idx += 1;
    }
    proof {
        assert(prog@ =~= spec_parse(ops@));
    }
    Ok(prog)
}

} // verus!
