//! The code generator: given an ordered list of labeled lines, hoist
//! data reservations to the end, hoist function bodies after them,
//! resolve labels to addresses (one address per line, in final order),
//! and encode every line into one 32-bit word.

use vstd::prelude::*;

use crate::ir::{IR, Line, OPERAND_LIMIT, OP_ADD, OP_CALL, OP_DIV, OP_EQ, OP_GT, OP_GTE,
    OP_HALT, OP_JMP, OP_JMZ, OP_LOAD, OP_LOADC, OP_LT, OP_LTE, OP_MUL, OP_NEQ, OP_NOOP, OP_ODD,
    OP_RET, OP_STORE, OP_SUB, OP_WRITE, is_dec, is_ret, is_start_func, word_for};

verus! {

/// Why a generation run rejected its input. Rejection is total: no
/// partial word array is ever produced.
#[derive(Clone, Copy, Debug, PartialEq, Eq, Structural)]
pub enum GenError {
    /// An address or immediate operand does not fit the 24-bit field.
    OperandOutOfRange,
    /// A line refers to a label that no line carries.
    UndefinedLabel,
}

/// The data-reservation lines of `s`, in their original order.
pub open spec fn dec_lines(s: Seq<Line>) -> Seq<Line>
    decreases s.len(),
{
    if s.len() == 0 {
        Seq::empty()
    } else if is_dec(s[0]) {
        seq![s[0]] + dec_lines(s.drop_first())
    } else {
        dec_lines(s.drop_first())
    }
}

/// The lines of `s` that reserve no data, in their original order.
pub open spec fn code_lines(s: Seq<Line>) -> Seq<Line>
    decreases s.len(),
{
    if s.len() == 0 {
        Seq::empty()
    } else if is_dec(s[0]) {
        code_lines(s.drop_first())
    } else {
        seq![s[0]] + code_lines(s.drop_first())
    }
}

/// The order after data hoisting: every data-reservation line moved,
/// in encounter order, behind the rest.
pub open spec fn data_hoisted(s: Seq<Line>) -> Seq<Line> {
    code_lines(s) + dec_lines(s)
}

/// One step of the function-body scan: the flag is raised on a
/// function-entry marker and stays raised through the closing return.
pub open spec fn func_step(in_func: bool, l: Line) -> bool {
    (in_func || is_start_func(l)) && !is_ret(l)
}

/// Whether the function-body scan is inside a body at line `l`.
pub open spec fn func_here(in_func: bool, l: Line) -> bool {
    in_func || is_start_func(l)
}

/// The scan flag after walking all of `s`, starting from `in_func`.
pub open spec fn func_flag(s: Seq<Line>, in_func: bool) -> bool
    decreases s.len(),
{
    if s.len() == 0 {
        in_func
    } else {
        func_flag(s.drop_first(), func_step(in_func, s[0]))
    }
}

/// The lines of `s` outside every function body, in order, scanning
/// with the flag started at `in_func`.
pub open spec fn outside_funcs(s: Seq<Line>, in_func: bool) -> Seq<Line>
    decreases s.len(),
{
    if s.len() == 0 {
        Seq::empty()
    } else if func_here(in_func, s[0]) {
        outside_funcs(s.drop_first(), func_step(in_func, s[0]))
    } else {
        seq![s[0]] + outside_funcs(s.drop_first(), func_step(in_func, s[0]))
    }
}

/// The lines of `s` inside function bodies (entry marker and closing
/// return included), in order, scanning from `in_func`.
pub open spec fn inside_funcs(s: Seq<Line>, in_func: bool) -> Seq<Line>
    decreases s.len(),
{
    if s.len() == 0 {
        Seq::empty()
    } else if func_here(in_func, s[0]) {
        seq![s[0]] + inside_funcs(s.drop_first(), func_step(in_func, s[0]))
    } else {
        inside_funcs(s.drop_first(), func_step(in_func, s[0]))
    }
}

/// The order after function hoisting: every maximal run from a
/// function-entry marker through its closing return moved, in
/// encounter order, behind the rest.
pub open spec fn funcs_hoisted(s: Seq<Line>) -> Seq<Line> {
    outside_funcs(s, false) + inside_funcs(s, false)
}

/// The final line order of a generation run: data hoisted first, then
/// function bodies.
pub open spec fn reordered(s: Seq<Line>) -> Seq<Line> {
    funcs_hoisted(data_hoisted(s))
}

/// Whether line `l` carries the label spelled `name`.
pub open spec fn has_label(l: Line, name: Seq<char>) -> bool {
    match l.label {
        Some(x) => x@ == name,
        None => false,
    }
}

/// The address the symbol table gives a label name: the position of
/// the last line carrying it in the final order, or `None` when no
/// line does. (In a well-formed unit at most one line carries a given
/// name; resolution is stated for every input all the same.)
pub open spec fn label_addr(lines: Seq<Line>, name: Seq<char>) -> Option<int>
    decreases lines.len(),
{
    if lines.len() == 0 {
        None
    } else if has_label(lines.last(), name) {
        Some(lines.len() - 1)
    } else {
        label_addr(lines.drop_last(), name)
    }
}

/// A label carried by exactly one line resolves to that line's
/// position: the address any jump, call, load or store naming it is
/// encoded with.
pub proof fn lemma_label_resolves_to_line(lines: Seq<Line>, i: int, name: Seq<char>)
    requires
        0 <= i < lines.len(),
        has_label(lines[i], name),
        forall|j: int| i < j < lines.len() ==> !has_label(#[trigger] lines[j], name),
    ensures
        label_addr(lines, name) == Some(i),
    decreases lines.len(),
{
    if i + 1 < lines.len() {
        assert(lines.drop_last()[i] == lines[i]);
        lemma_label_resolves_to_line(lines.drop_last(), i, name);
    }
}

/// The word encoding one instruction, with labels resolved against the
/// final line order `lines`, or the error that rejects the input.
pub open spec fn enc_inst(lines: Seq<Line>, inst: IR) -> Result<u32, GenError> {
    match inst {
        IR::JMP(l) => enc_target(OP_JMP, label_addr(lines, l@)),
        IR::JMZ(l) => enc_target(OP_JMZ, label_addr(lines, l@)),
        IR::LOAD(l) => enc_target(OP_LOAD, label_addr(lines, l@)),
        IR::LOADC(n) => if 0 <= n < OPERAND_LIMIT {
            Ok(word_for(OP_LOADC, n as u32))
        } else {
            Err(GenError::OperandOutOfRange)
        },
        IR::STORE(l) => enc_target(OP_STORE, label_addr(lines, l@)),
        IR::CALL(l) => enc_target(OP_CALL, label_addr(lines, l@)),
        IR::WRITE => Ok(word_for(OP_WRITE, 0)),
        IR::ADD => Ok(word_for(OP_ADD, 0)),
        IR::SUB => Ok(word_for(OP_SUB, 0)),
        IR::DIV => Ok(word_for(OP_DIV, 0)),
        IR::MUL => Ok(word_for(OP_MUL, 0)),
        IR::ODD => Ok(word_for(OP_ODD, 0)),
        IR::LT => Ok(word_for(OP_LT, 0)),
        IR::LTE => Ok(word_for(OP_LTE, 0)),
        IR::GT => Ok(word_for(OP_GT, 0)),
        IR::GTE => Ok(word_for(OP_GTE, 0)),
        IR::EQ => Ok(word_for(OP_EQ, 0)),
        IR::NEQ => Ok(word_for(OP_NEQ, 0)),
        IR::NOOP => Ok(word_for(OP_NOOP, 0)),
        IR::StartFunc => Ok(word_for(OP_NOOP, 0)),
        IR::RET => Ok(word_for(OP_RET, 0)),
        IR::HALT => Ok(word_for(OP_HALT, 0)),
        IR::DEC(n) => Ok(n as u32),
    }
}

/// The word for a label-addressed instruction: the resolved address in
/// the 24-bit operand field, if the label resolved and the address
/// fits.
pub open spec fn enc_target(tag: u32, addr: Option<int>) -> Result<u32, GenError> {
    match addr {
        None => Err(GenError::UndefinedLabel),
        Some(a) => if a < OPERAND_LIMIT {
            Ok(word_for(tag, a as u32))
        } else {
            Err(GenError::OperandOutOfRange)
        },
    }
}

/// The words for the first `n` lines of the final order, or the
/// earliest error among them.
pub open spec fn enc_prefix(lines: Seq<Line>, n: int) -> Result<Seq<u32>, GenError>
    decreases n,
{
    if n <= 0 {
        Ok(Seq::empty())
    } else {
        match enc_prefix(lines, n - 1) {
            Err(e) => Err(e),
            Ok(ws) => match enc_inst(lines, lines[n - 1].inst) {
                Err(e) => Err(e),
                Ok(w) => Ok(ws.push(w)),
            },
        }
    }
}

/// What a generation run produces for input `s`: the encoded words of
/// the reordered lines, or the error that rejects the input whole.
pub open spec fn gen_output(s: Seq<Line>) -> Result<Seq<u32>, GenError> {
    enc_prefix(reordered(s), reordered(s).len() as int)
}

/// A prefix that encoded cleanly yields one word per line, each the
/// encoding of its line.
proof fn lemma_enc_prefix_words(lines: Seq<Line>, n: int, ws: Seq<u32>)
    requires
        0 <= n,
        enc_prefix(lines, n) == Ok::<Seq<u32>, GenError>(ws),
    ensures
        ws.len() == n,
        forall|i: int|
            0 <= i < n ==> enc_inst(lines, #[trigger] lines[i].inst) == Ok::<u32, GenError>(
                ws[i],
            ),
    decreases n,
{
    if n > 0 {
        match enc_prefix(lines, n - 1) {
            Ok(prev) => {
                lemma_enc_prefix_words(lines, n - 1, prev);
            },
            Err(_) => {},
        }
    }
}

/// A prefix whose every line encodes cleanly encodes cleanly as a
/// whole.
proof fn lemma_enc_prefix_all_ok(lines: Seq<Line>, n: int)
    requires
        0 <= n <= lines.len(),
        forall|i: int| 0 <= i < n ==> enc_inst(lines, #[trigger] lines[i].inst) is Ok,
    ensures
        enc_prefix(lines, n) is Ok,
    decreases n,
{
    if n > 0 {
        lemma_enc_prefix_all_ok(lines, n - 1);
    }
}

/// The words a successful generation run produces, line by line: one
/// word per line of the final order, each the encoding of its
/// instruction against that order. In particular a `CALL` line's word
/// carries the address of the line its label resolves to.
pub proof fn lemma_generated_words(s: Seq<Line>, ws: Seq<u32>)
    requires
        gen_output(s) == Ok::<Seq<u32>, GenError>(ws),
    ensures
        ws.len() == reordered(s).len(),
        forall|i: int|
            0 <= i < ws.len() ==> enc_inst(reordered(s), #[trigger] reordered(s)[i].inst)
                == Ok::<u32, GenError>(ws[i]),
{
    lemma_enc_prefix_words(reordered(s), reordered(s).len() as int, ws);
}

/// Generation succeeds exactly when every line of the final order
/// encodes: every label resolves to an address within the 24-bit
/// operand field, and every immediate fits it.
pub proof fn lemma_generation_succeeds_iff(s: Seq<Line>)
    ensures
        gen_output(s) is Ok <==> (forall|i: int|
            0 <= i < reordered(s).len() ==> enc_inst(
                reordered(s),
                #[trigger] reordered(s)[i].inst,
            ) is Ok),
{
    match gen_output(s) {
        Ok(ws) => {
            lemma_enc_prefix_words(reordered(s), reordered(s).len() as int, ws);
        },
        Err(_) => {
            if forall|i: int|
                0 <= i < reordered(s).len() ==> enc_inst(
                    reordered(s),
                    #[trigger] reordered(s)[i].inst,
                ) is Ok {
                lemma_enc_prefix_all_ok(reordered(s), reordered(s).len() as int);
            }
        },
    }
}

/// An error at line `n - 1` of the final order rejects every longer
/// prefix too.
proof fn lemma_enc_prefix_err(lines: Seq<Line>, n: int, m: int)
    requires
        0 < n <= m,
        enc_prefix(lines, n) is Err,
    ensures
        enc_prefix(lines, m) == enc_prefix(lines, n),
    decreases m - n,
{
    if m > n {
        lemma_enc_prefix_err(lines, n, m - 1);
    }
}

/// The position of the last line carrying label `name`, or `None`
/// when no line does.
pub fn find_label(lines: &Vec<Line>, name: &String) -> (r: Option<usize>)
    ensures
        match r {
            None => label_addr(lines@, name@) is None,
            Some(i) => label_addr(lines@, name@) == Some(i as int),
        },
{
    let mut i: usize = lines.len();
    proof {
        assert(lines@.take(i as int) == lines@);
    }
    while i > 0
        invariant
            i <= lines@.len(),
            label_addr(lines@, name@) == label_addr(lines@.take(i as int), name@),
        decreases i,
    {
        i = i - 1;
        let found = match &lines[i].label {
            Some(l) => *l == *name,
            None => false,
        };
        proof {
            assert(lines@.take(i + 1).drop_last() == lines@.take(i as int));
            assert(lines@.take(i + 1).last() == lines@[i as int]);
        }
        if found {
            return Some(i);
        }
    }
    proof {
        assert(lines@.take(0) == Seq::<Line>::empty());
    }
    None
}

/// Move every data-reservation line, in encounter order, behind the
/// rest, in place.
pub fn hoist_data(lines: &mut Vec<Line>)
    ensures
        final(lines)@ == data_hoisted(old(lines)@),
{
    let ghost orig: Seq<Line> = lines@;
    let mut kept: Vec<Line> = Vec::new();
    let mut decs: Vec<Line> = Vec::new();
    while lines.len() > 0
        invariant
            code_lines(orig) == kept@ + code_lines(lines@),
            dec_lines(orig) == decs@ + dec_lines(lines@),
        decreases lines.len(),
    {
        let ghost before: Seq<Line> = lines@;
        let line = lines.remove(0);
        proof {
            assert(before.drop_first() == lines@);
        }
        if matches!(line.inst, IR::DEC(_)) {
            decs.push(line);
        } else {
            kept.push(line);
        }
    }
    lines.append(&mut kept);
    lines.append(&mut decs);
}

/// Move every function body (entry marker through closing return), in
/// encounter order, behind the rest, in place.
pub fn hoist_functions(lines: &mut Vec<Line>)
    ensures
        final(lines)@ == funcs_hoisted(old(lines)@),
{
    let ghost orig: Seq<Line> = lines@;
    let mut kept: Vec<Line> = Vec::new();
    let mut funcs: Vec<Line> = Vec::new();
    let mut in_func: bool = false;
    while lines.len() > 0
        invariant
            outside_funcs(orig, false) == kept@ + outside_funcs(lines@, in_func),
            inside_funcs(orig, false) == funcs@ + inside_funcs(lines@, in_func),
        decreases lines.len(),
    {
        let ghost before: Seq<Line> = lines@;
        let line = lines.remove(0);
        proof {
            assert(before.drop_first() == lines@);
        }
        let here = in_func || matches!(line.inst, IR::StartFunc);
        in_func = here && !matches!(line.inst, IR::RET);
        if here {
            funcs.push(line);
        } else {
            kept.push(line);
        }
    }
    lines.append(&mut kept);
    lines.append(&mut funcs);
}

/// A resolved label names a position of the line list.
pub proof fn lemma_label_addr_in_range(lines: Seq<Line>, name: Seq<char>)
    ensures
        match label_addr(lines, name) {
            None => true,
            Some(a) => 0 <= a < lines.len(),
        },
    decreases lines.len(),
{
    if lines.len() > 0 {
        lemma_label_addr_in_range(lines.drop_last(), name);
    }
}

/// The word for one label-addressed instruction of `lines`.
fn encode_target(lines: &Vec<Line>, name: &String, tag: u32) -> (r: Result<u32, GenError>)
    ensures
        r == enc_target(tag, label_addr(lines@, name@)),
{
    proof {
        lemma_label_addr_in_range(lines@, name@);
    }
    match find_label(lines, name) {
        None => Err(GenError::UndefinedLabel),
        Some(a) => if a < OPERAND_LIMIT as usize {
            Ok(word_for(tag, a as u32))
        } else {
            Err(GenError::OperandOutOfRange)
        },
    }
}

/// The word for line `idx` of the final order `lines`.
fn encode_line(lines: &Vec<Line>, idx: usize) -> (r: Result<u32, GenError>)
    requires
        idx < lines@.len(),
    ensures
        r == enc_inst(lines@, lines@[idx as int].inst),
{
    match &lines[idx].inst {
        IR::JMP(l) => encode_target(lines, l, OP_JMP),
        IR::JMZ(l) => encode_target(lines, l, OP_JMZ),
        IR::LOAD(l) => encode_target(lines, l, OP_LOAD),
        IR::LOADC(n) => if 0 <= *n && *n < OPERAND_LIMIT as i32 {
            Ok(word_for(OP_LOADC, *n as u32))
        } else {
            Err(GenError::OperandOutOfRange)
        },
        IR::STORE(l) => encode_target(lines, l, OP_STORE),
        IR::CALL(l) => encode_target(lines, l, OP_CALL),
        IR::WRITE => Ok(word_for(OP_WRITE, 0)),
        IR::ADD => Ok(word_for(OP_ADD, 0)),
        IR::SUB => Ok(word_for(OP_SUB, 0)),
        IR::DIV => Ok(word_for(OP_DIV, 0)),
        IR::MUL => Ok(word_for(OP_MUL, 0)),
        IR::ODD => Ok(word_for(OP_ODD, 0)),
        IR::LT => Ok(word_for(OP_LT, 0)),
        IR::LTE => Ok(word_for(OP_LTE, 0)),
        IR::GT => Ok(word_for(OP_GT, 0)),
        IR::GTE => Ok(word_for(OP_GTE, 0)),
        IR::EQ => Ok(word_for(OP_EQ, 0)),
        IR::NEQ => Ok(word_for(OP_NEQ, 0)),
        IR::NOOP => Ok(word_for(OP_NOOP, 0)),
        IR::StartFunc => Ok(word_for(OP_NOOP, 0)),
        IR::RET => Ok(word_for(OP_RET, 0)),
        IR::HALT => Ok(word_for(OP_HALT, 0)),
        IR::DEC(n) => Ok(#[verifier::truncate] (*n as u32)),
    }
}

/// One generation run: holds the encoded words once `gen` succeeds.
pub struct CodeGen {
    pub output: Vec<u32>,
}

impl CodeGen {
    pub fn new() -> (r: CodeGen)
        ensures
            r.output@ == Seq::<u32>::empty(),
    {
        CodeGen { output: Vec::new() }
    }

    /// Reorder `input` in place (data hoisted behind the code, then
    /// function bodies behind the data), resolve every label to the
    /// position of the line carrying it, and append one encoded word
    /// per line to `output`. An unresolved label or an operand beyond
    /// the 24-bit field rejects the input whole: `output` then gains
    /// nothing.
    #[verifier::loop_isolation(false)]
    pub fn gen(&mut self, input: &mut Vec<Line>) -> (r: Result<(), GenError>)
        ensures
            final(input)@ == reordered(old(input)@),
            match gen_output(old(input)@) {
                Ok(ws) => r == Ok::<(), GenError>(()) && final(self).output@ == old(self).output@
                    + ws,
                Err(e) => r == Err::<(), GenError>(e) && final(self).output@ == old(
                    self,
                ).output@,
            },
    {
        let ghost orig: Seq<Line> = input@;
        hoist_data(input);
        hoist_functions(input);
        let mut words: Vec<u32> = Vec::new();
        let n = input.len();
        let mut i: usize = 0;
        while i < n
            invariant
                input@ == reordered(orig),
                n == input@.len(),
                i <= n,
                enc_prefix(input@, i as int) == Ok::<Seq<u32>, GenError>(words@),
            decreases n - i,
        {
            match encode_line(input, i) {
                Ok(w) => words.push(w),
                Err(e) => {
                    proof {
                        lemma_enc_prefix_err(input@, i + 1, n as int);
                    }
                    return Err(e);
                },
            }
            i = i + 1;
        }
        self.output.append(&mut words);
        Ok(())
    }
}

/// Splitting into data and code lines distributes over concatenation.
proof fn lemma_lines_split_append(x: Seq<Line>, y: Seq<Line>)
    ensures
        dec_lines(x + y) == dec_lines(x) + dec_lines(y),
        code_lines(x + y) == code_lines(x) + code_lines(y),
    decreases x.len(),
{
    if x.len() == 0 {
        assert(x + y =~= y);
        assert(dec_lines(x) + dec_lines(y) =~= dec_lines(y));
        assert(code_lines(x) + code_lines(y) =~= code_lines(y));
    } else {
        assert((x + y).drop_first() =~= x.drop_first() + y);
        lemma_lines_split_append(x.drop_first(), y);
        assert((x + y)[0] == x[0]);
        if is_dec(x[0]) {
            assert(seq![x[0]] + (dec_lines(x.drop_first()) + dec_lines(y)) =~= (seq![x[0]]
                + dec_lines(x.drop_first())) + dec_lines(y));
        } else {
            assert(seq![x[0]] + (code_lines(x.drop_first()) + code_lines(y)) =~= (seq![x[0]]
                + code_lines(x.drop_first())) + code_lines(y));
        }
    }
}

/// The function-body scan distributes over concatenation, the flag
/// threaded through.
proof fn lemma_funcs_split_append(x: Seq<Line>, y: Seq<Line>, f: bool)
    ensures
        func_flag(x + y, f) == func_flag(y, func_flag(x, f)),
        outside_funcs(x + y, f) == outside_funcs(x, f) + outside_funcs(y, func_flag(x, f)),
        inside_funcs(x + y, f) == inside_funcs(x, f) + inside_funcs(y, func_flag(x, f)),
    decreases x.len(),
{
    if x.len() == 0 {
        assert(x + y =~= y);
        assert(outside_funcs(x, f) + outside_funcs(y, f) =~= outside_funcs(y, f));
        assert(inside_funcs(x, f) + inside_funcs(y, f) =~= inside_funcs(y, f));
    } else {
        assert((x + y).drop_first() =~= x.drop_first() + y);
        assert((x + y)[0] == x[0]);
        let f2 = func_step(f, x[0]);
        lemma_funcs_split_append(x.drop_first(), y, f2);
        if !func_here(f, x[0]) {
            assert(seq![x[0]] + (outside_funcs(x.drop_first(), f2) + outside_funcs(
                y,
                func_flag(x.drop_first(), f2),
            )) =~= (seq![x[0]] + outside_funcs(x.drop_first(), f2)) + outside_funcs(
                y,
                func_flag(x.drop_first(), f2),
            ));
        } else {
            assert(seq![x[0]] + (inside_funcs(x.drop_first(), f2) + inside_funcs(
                y,
                func_flag(x.drop_first(), f2),
            )) =~= (seq![x[0]] + inside_funcs(x.drop_first(), f2)) + inside_funcs(
                y,
                func_flag(x.drop_first(), f2),
            ));
        }
    }
}

/// `dec_lines` keeps only data lines, `code_lines` only the rest, and
/// together they carry every line.
proof fn lemma_split_contents(s: Seq<Line>)
    ensures
        forall|i: int| 0 <= i < dec_lines(s).len() ==> is_dec(#[trigger] dec_lines(s)[i]),
        forall|i: int| 0 <= i < code_lines(s).len() ==> !is_dec(#[trigger] code_lines(s)[i]),
        dec_lines(s).len() + code_lines(s).len() == s.len(),
    decreases s.len(),
{
    if s.len() > 0 {
        lemma_split_contents(s.drop_first());
    }
}

/// Scanning lines that are all data moves them whole: the flag never
/// changes, and they land outside or inside as it stands.
proof fn lemma_scan_of_decs(d: Seq<Line>, f: bool)
    requires
        forall|i: int| 0 <= i < d.len() ==> is_dec(#[trigger] d[i]),
    ensures
        func_flag(d, f) == f,
        outside_funcs(d, f) == if f {
            Seq::<Line>::empty()
        } else {
            d
        },
        inside_funcs(d, f) == if f {
            d
        } else {
            Seq::<Line>::empty()
        },
    decreases d.len(),
{
    if d.len() > 0 {
        lemma_scan_of_decs(d.drop_first(), f);
        if !f {
            assert(seq![d[0]] + d.drop_first() =~= d);
        }
    }
}

/// The scan invents no data lines: on input without any, both parts
/// are without any.
proof fn lemma_scan_keeps_no_decs(c: Seq<Line>, f: bool)
    requires
        forall|i: int| 0 <= i < c.len() ==> !is_dec(#[trigger] c[i]),
    ensures
        forall|i: int|
            0 <= i < outside_funcs(c, f).len() ==> !is_dec(#[trigger] outside_funcs(c, f)[i]),
        forall|i: int|
            0 <= i < inside_funcs(c, f).len() ==> !is_dec(#[trigger] inside_funcs(c, f)[i]),
    decreases c.len(),
{
    if c.len() > 0 {
        let f2 = func_step(f, c[0]);
        let rest = c.drop_first();
        assert forall|i: int| 0 <= i < rest.len() implies !is_dec(#[trigger] rest[i]) by {
            assert(rest[i] == c[i + 1]);
        }
        lemma_scan_keeps_no_decs(rest, f2);
        if func_here(f, c[0]) {
            assert forall|i: int|
                0 <= i < inside_funcs(c, f).len() implies !is_dec(
                #[trigger] inside_funcs(c, f)[i],
            ) by {
                if i > 0 {
                    assert(inside_funcs(c, f)[i] == inside_funcs(rest, f2)[i - 1]);
                }
            }
        } else {
            assert forall|i: int|
                0 <= i < outside_funcs(c, f).len() implies !is_dec(
                #[trigger] outside_funcs(c, f)[i],
            ) by {
                if i > 0 {
                    assert(outside_funcs(c, f)[i] == outside_funcs(rest, f2)[i - 1]);
                }
            }
        }
    }
}

/// On lines without any data line, `dec_lines` is empty.
proof fn lemma_no_decs_no_dec_lines(s: Seq<Line>)
    requires
        forall|i: int| 0 <= i < s.len() ==> !is_dec(#[trigger] s[i]),
    ensures
        dec_lines(s) == Seq::<Line>::empty(),
    decreases s.len(),
{
    if s.len() > 0 {
        assert forall|i: int|
            0 <= i < s.drop_first().len() implies !is_dec(#[trigger] s.drop_first()[i]) by {
            assert(s.drop_first()[i] == s[i + 1]);
        }
        lemma_no_decs_no_dec_lines(s.drop_first());
    }
}

/// On lines that are all data lines, `dec_lines` keeps them all.
proof fn lemma_all_decs_dec_lines(s: Seq<Line>)
    requires
        forall|i: int| 0 <= i < s.len() ==> is_dec(#[trigger] s[i]),
    ensures
        dec_lines(s) == s,
    decreases s.len(),
{
    if s.len() > 0 {
        assert forall|i: int|
            0 <= i < s.drop_first().len() implies is_dec(#[trigger] s.drop_first()[i]) by {
            assert(s.drop_first()[i] == s[i + 1]);
        }
        lemma_all_decs_dec_lines(s.drop_first());
        assert(seq![s[0]] + s.drop_first() =~= s);
    }
}

/// The shape of the final line order: the plain code first; then,
/// when every function body is closed by a return, the data block and
/// the function bodies; when a body is left open, the data block is
/// swept into it and follows the bodies instead.
pub proof fn lemma_reordered_layout(s: Seq<Line>)
    ensures
        ({
            let c = code_lines(s);
            let d = dec_lines(s);
            reordered(s) == if func_flag(c, false) {
                outside_funcs(c, false) + (inside_funcs(c, false) + d)
            } else {
                outside_funcs(c, false) + d + inside_funcs(c, false)
            }
        }),
{
    let c = code_lines(s);
    let d = dec_lines(s);
    let g = func_flag(c, false);
    lemma_split_contents(s);
    lemma_funcs_split_append(c, d, false);
    lemma_scan_of_decs(d, g);
    if g {
        assert(outside_funcs(c, false) + Seq::<Line>::empty() =~= outside_funcs(c, false));
    } else {
        assert(inside_funcs(c, false) + Seq::<Line>::empty() =~= inside_funcs(c, false));
        assert((outside_funcs(c, false) + d) + inside_funcs(c, false) =~= outside_funcs(c, false)
            + d + inside_funcs(c, false));
    }
}

/// Data relocation: the data lines keep their relative order through
/// generation, and every data line's assigned address lies at or
/// beyond the address of every plain line (one neither reserving data
/// nor standing in a function body) — the plain code is an unmoved
/// prefix of the final order.
pub proof fn lemma_data_relocation(s: Seq<Line>)
    ensures
        dec_lines(reordered(s)) == dec_lines(s),
        forall|i: int|
            0 <= i < reordered(s).len() && is_dec(#[trigger] reordered(s)[i]) ==> outside_funcs(
                code_lines(s),
                false,
            ).len() <= i,
        forall|i: int|
            0 <= i < outside_funcs(code_lines(s), false).len() ==> #[trigger] reordered(s)[i]
                == outside_funcs(code_lines(s), false)[i],
{
    let c = code_lines(s);
    let d = dec_lines(s);
    let g = func_flag(c, false);
    let o = outside_funcs(c, false);
    let q = inside_funcs(c, false);
    lemma_reordered_layout(s);
    lemma_split_contents(s);
    lemma_scan_keeps_no_decs(c, false);
    lemma_no_decs_no_dec_lines(o);
    lemma_no_decs_no_dec_lines(q);
    lemma_all_decs_dec_lines(d);
    if g {
        lemma_lines_split_append(o, q + d);
        lemma_lines_split_append(q, d);
        assert(dec_lines(reordered(s)) =~= d);
    } else {
        lemma_lines_split_append(o + d, q);
        lemma_lines_split_append(o, d);
        assert(dec_lines(reordered(s)) =~= d);
    }
}

/// What the scan moves inside is function code through and through:
/// scanned again, none of it falls outside a body. Each hoisted body
/// therefore runs uninterrupted from its entry marker to its return,
/// the next body (if any) starting right after.
proof fn lemma_inside_rescans(s: Seq<Line>, f: bool)
    ensures
        outside_funcs(inside_funcs(s, f), f) == Seq::<Line>::empty(),
        inside_funcs(inside_funcs(s, f), f) == inside_funcs(s, f),
    decreases s.len(),
{
    if s.len() > 0 {
        let f2 = func_step(f, s[0]);
        lemma_inside_rescans(s.drop_first(), f2);
        if func_here(f, s[0]) {
            let q = inside_funcs(s, f);
            assert(q == seq![s[0]] + inside_funcs(s.drop_first(), f2));
            assert(q[0] == s[0]);
            assert(q.drop_first() =~= inside_funcs(s.drop_first(), f2));
            assert(seq![q[0]] + inside_funcs(s.drop_first(), f2) =~= q);
        }
    }
}

/// Function relocation: when every function body is closed by a
/// return, the final order is the plain code, then every data
/// reservation, then the function bodies — all of them behind every
/// data address, and their block holding nothing but bodies: each one
/// runs contiguously from its entry marker to its return, the next
/// body starting right after.
pub proof fn lemma_function_relocation(s: Seq<Line>)
    requires
        !func_flag(code_lines(s), false),
    ensures
        reordered(s) == outside_funcs(code_lines(s), false) + dec_lines(s) + inside_funcs(
            code_lines(s),
            false,
        ),
        outside_funcs(inside_funcs(code_lines(s), false), false) == Seq::<Line>::empty(),
        inside_funcs(inside_funcs(code_lines(s), false), false) == inside_funcs(
            code_lines(s),
            false,
        ),
{
    lemma_reordered_layout(s);
    lemma_inside_rescans(code_lines(s), false);
}

} // verus!
