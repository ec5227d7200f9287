use vstd::prelude::*;

use crate::instruction::Instruction;
use crate::number::Number;
use crate::text::{chars_of, decimal_digits, decimal_i32, push_decimal, is_space, is_word, parse_i32, space, string_of, word_is};

verus! {

/// One line of source: an instruction whose jump and call targets are
/// still label names, or a structured control-flow marker. Names are
/// `String`s; the same enum over `Seq<char>` names is its view.
#[derive(Debug)]
pub enum IR<T, N = String> {
    Push(T),
    Add,
    Subtract,
    Multiply,
    Divide,
    Print,
    Jump(N),
    Call(N),
    ConditionalJump(N),
    Label(N),
    Return,
    Store(N),
    Load(N),
    Equal,
    LessThan,
    GreaterThan,
    Dup,
    Swap,
    Pop,
    If,
    Else,
    EndIf,
    While,
    EndWhile,
    Do,
    EndDo,
    Not,
    Halt,
}

impl<T: Copy> View for IR<T> {
    type V = IR<T, Seq<char>>;

    open spec fn view(&self) -> IR<T, Seq<char>> {
        match self {
            IR::Push(v) => IR::Push(*v),
            IR::Add => IR::Add,
            IR::Subtract => IR::Subtract,
            IR::Multiply => IR::Multiply,
            IR::Divide => IR::Divide,
            IR::Print => IR::Print,
            IR::Jump(n) => IR::Jump(n@),
            IR::Call(n) => IR::Call(n@),
            IR::ConditionalJump(n) => IR::ConditionalJump(n@),
            IR::Label(n) => IR::Label(n@),
            IR::Return => IR::Return,
            IR::Store(n) => IR::Store(n@),
            IR::Load(n) => IR::Load(n@),
            IR::Equal => IR::Equal,
            IR::LessThan => IR::LessThan,
            IR::GreaterThan => IR::GreaterThan,
            IR::Dup => IR::Dup,
            IR::Swap => IR::Swap,
            IR::Pop => IR::Pop,
            IR::If => IR::If,
            IR::Else => IR::Else,
            IR::EndIf => IR::EndIf,
            IR::While => IR::While,
            IR::EndWhile => IR::EndWhile,
            IR::Do => IR::Do,
            IR::EndDo => IR::EndDo,
            IR::Not => IR::Not,
            IR::Halt => IR::Halt,
        }
    }
}

/// What is wrong with a malformed source line.
#[derive(Debug, Clone, Copy, PartialEq, Eq, Structural)]
pub enum LineDefect {
    /// The mnemonic takes another number of operands.
    WrongOperandCount,
    /// The operand of `PUSH` is not a decimal `i32`.
    InvalidNumber,
    /// The first word is no mnemonic.
    UnknownInstruction,
}

/// A structured construct that is open while lowering.
#[derive(Debug, Clone, Copy, PartialEq, Eq, Structural)]
pub enum ControlKind {
    If,
    Else,
    While,
    Do,
}

/// Why a source text could not be assembled.
#[derive(Debug)]
pub enum AsmError<N = String> {
    /// The line with this 1-based number is malformed.
    MalformedLine { line: usize, defect: LineDefect },
    /// `ELSE` without an open `IF`.
    ElseWithoutIf,
    /// `ENDIF` without an open `IF` or `ELSE`.
    EndIfWithoutIf,
    /// `ENDWHILE` without an open `WHILE`.
    EndWhileWithoutWhile,
    /// `ENDDO` without an open `DO`.
    EndDoWithoutDo,
    /// The source ended with this construct still open (the innermost one).
    UnbalancedControlFlow(ControlKind),
    /// A jump or call names a label that is never declared.
    UndefinedLabel(N),
}

impl View for AsmError {
    type V = AsmError<Seq<char>>;

    open spec fn view(&self) -> AsmError<Seq<char>> {
        match self {
            AsmError::MalformedLine { line, defect } => AsmError::MalformedLine {
                line: *line,
                defect: *defect,
            },
            AsmError::ElseWithoutIf => AsmError::ElseWithoutIf,
            AsmError::EndIfWithoutIf => AsmError::EndIfWithoutIf,
            AsmError::EndWhileWithoutWhile => AsmError::EndWhileWithoutWhile,
            AsmError::EndDoWithoutDo => AsmError::EndDoWithoutDo,
            AsmError::UnbalancedControlFlow(k) => AsmError::UnbalancedControlFlow(*k),
            AsmError::UndefinedLabel(n) => AsmError::UndefinedLabel(n@),
        }
    }
}

pub open spec fn opt_view<T: Copy>(o: Option<IR<T>>) -> Option<IR<T, Seq<char>>> {
    match o {
        Some(i) => Some(i@),
        None => None,
    }
}

/// The views of a sequence of instructions.
pub open spec fn ir_views<T: Copy>(v: Seq<IR<T>>) -> Seq<IR<T, Seq<char>>> {
    v.map_values(|i: IR<T>| i@)
}

/// The operand-less instruction a mnemonic names.
pub open spec fn nullary_ir<T>(w: Seq<char>) -> Option<IR<T, Seq<char>>> {
    if is_word(w, "ADD"@) {
        Some(IR::Add)
    } else if is_word(w, "SUBTRACT"@) {
        Some(IR::Subtract)
    } else if is_word(w, "MULTIPLY"@) {
        Some(IR::Multiply)
    } else if is_word(w, "DIVIDE"@) {
        Some(IR::Divide)
    } else if is_word(w, "PRINT"@) {
        Some(IR::Print)
    } else if is_word(w, "RETURN"@) {
        Some(IR::Return)
    } else if is_word(w, "HALT"@) {
        Some(IR::Halt)
    } else if is_word(w, "EQUAL"@) {
        Some(IR::Equal)
    } else if is_word(w, "LT"@) {
        Some(IR::LessThan)
    } else if is_word(w, "GT"@) {
        Some(IR::GreaterThan)
    } else if is_word(w, "DUP"@) {
        Some(IR::Dup)
    } else if is_word(w, "SWAP"@) {
        Some(IR::Swap)
    } else if is_word(w, "POP"@) {
        Some(IR::Pop)
    } else if is_word(w, "NOT"@) {
        Some(IR::Not)
    } else if is_word(w, "IF"@) {
        Some(IR::If)
    } else if is_word(w, "ELSE"@) {
        Some(IR::Else)
    } else if is_word(w, "ENDIF"@) {
        Some(IR::EndIf)
    } else if is_word(w, "WHILE"@) {
        Some(IR::While)
    } else if is_word(w, "ENDWHILE"@) {
        Some(IR::EndWhile)
    } else if is_word(w, "DO"@) {
        Some(IR::Do)
    } else if is_word(w, "ENDDO"@) {
        Some(IR::EndDo)
    } else {
        None
    }
}

/// The instruction a mnemonic with one name operand stands for.
pub open spec fn named_ir<T>(w: Seq<char>, name: Seq<char>) -> Option<IR<T, Seq<char>>> {
    if is_word(w, "JUMP"@) {
        Some(IR::Jump(name))
    } else if is_word(w, "CALL"@) {
        Some(IR::Call(name))
    } else if is_word(w, "CJUMP"@) {
        Some(IR::ConditionalJump(name))
    } else if is_word(w, "STORE"@) {
        Some(IR::Store(name))
    } else if is_word(w, "LOAD"@) {
        Some(IR::Load(name))
    } else if is_word(w, "LABEL"@) {
        Some(IR::Label(name))
    } else {
        None
    }
}

/// What a source line holding `count` words, the first two being `first`
/// and `second`, stands for: nothing (a blank line), one instruction, or
/// an error naming the 1-based `line`.
pub open spec fn line_ir<T: Number>(count: nat, first: Seq<char>, second: Seq<char>, line: usize) -> Result<
    Option<IR<T, Seq<char>>>,
    AsmError<Seq<char>>,
> {
    if count == 0 {
        Ok(None)
    } else if is_word(first, "PUSH"@) {
        if count != 2 {
            Err(AsmError::MalformedLine { line, defect: LineDefect::WrongOperandCount })
        } else {
            match decimal_i32(second) {
                Some(v) => Ok(Some(IR::Push(T::of_i32(v)))),
                None => Err(AsmError::MalformedLine { line, defect: LineDefect::InvalidNumber }),
            }
        }
    } else if named_ir::<T>(first, second) is Some {
        if count != 2 {
            Err(AsmError::MalformedLine { line, defect: LineDefect::WrongOperandCount })
        } else {
            Ok(named_ir::<T>(first, second))
        }
    } else if nullary_ir::<T>(first) is Some {
        if count != 1 {
            Err(AsmError::MalformedLine { line, defect: LineDefect::WrongOperandCount })
        } else {
            Ok(nullary_ir::<T>(first))
        }
    } else {
        Err(AsmError::MalformedLine { line, defect: LineDefect::UnknownInstruction })
    }
}

/// Where a left-to-right scan of the source stands: the instructions of
/// the lines done (or the first error), how many lines are done, and the
/// words seen so far on the current line.
pub struct Scan<T> {
    pub out: Result<Seq<IR<T, Seq<char>>>, AsmError<Seq<char>>>,
    pub line: nat,
    pub count: nat,
    pub first: Seq<char>,
    pub second: Seq<char>,
    pub word: Seq<char>,
    pub comment: bool,
}

/// The word being read ends.
pub open spec fn end_word<T>(s: Scan<T>) -> Scan<T> {
    if s.word.len() == 0 {
        s
    } else {
        Scan {
            count: s.count + 1,
            first: if s.count == 0 {
                s.word
            } else {
                s.first
            },
            second: if s.count == 1 {
                s.word
            } else {
                s.second
            },
            word: Seq::empty(),
            ..s
        }
    }
}

/// The line being read ends.
pub open spec fn end_line<T: Number>(s: Scan<T>) -> Scan<T> {
    let w = end_word(s);
    Scan {
        out: match w.out {
            Err(e) => Err(e),
            Ok(v) => match line_ir::<T>(w.count, w.first, w.second, (w.line + 1) as usize) {
                Err(e) => Err(e),
                Ok(None) => Ok(v),
                Ok(Some(i)) => Ok(v.push(i)),
            },
        },
        line: w.line + 1,
        count: 0,
        first: Seq::empty(),
        second: Seq::empty(),
        word: Seq::empty(),
        comment: false,
    }
}

/// One more character is read: a newline ends the line, `;` starts a
/// comment that runs to the end of the line, white space ends a word.
pub open spec fn scan_char<T: Number>(s: Scan<T>, c: char) -> Scan<T> {
    if c == '\n' {
        end_line(s)
    } else if s.comment {
        s
    } else if c == ';' {
        Scan { comment: true, ..end_word(s) }
    } else if is_space(c) {
        end_word(s)
    } else {
        Scan { word: s.word.push(c), ..s }
    }
}

pub open spec fn scan<T: Number>(t: Seq<char>) -> Scan<T>
    decreases t.len(),
{
    if t.len() == 0 {
        Scan {
            out: Ok(Seq::empty()),
            line: 0,
            count: 0,
            first: Seq::empty(),
            second: Seq::empty(),
            word: Seq::empty(),
            comment: false,
        }
    } else {
        scan_char(scan::<T>(t.drop_last()), t.last())
    }
}

/// The instructions a source text stands for, or its first error.
pub open spec fn parse_spec<T: Number>(t: Seq<char>) -> Result<
    Seq<IR<T, Seq<char>>>,
    AsmError<Seq<char>>,
> {
    end_line(scan::<T>(t)).out
}

proof fn lemma_scan_error_stays<T: Number>(t: Seq<char>, i: int)
    requires
        0 <= i <= t.len(),
        scan::<T>(t.take(i)).out is Err,
    ensures
        end_line(scan::<T>(t)).out == scan::<T>(t.take(i)).out,
    decreases t.len() - i,
{
    if i == t.len() {
        assert(t.take(i) =~= t);
    } else {
        assert(t.take(i + 1).drop_last() =~= t.take(i));
        lemma_scan_error_stays::<T>(t, i + 1);
    }
}

fn nullary<T: Copy>(w: &Vec<char>) -> (r: Option<IR<T>>)
    ensures
        opt_view(r) == nullary_ir::<T>(w@),
{
    if word_is(w, "ADD") {
        Some(IR::Add)
    } else if word_is(w, "SUBTRACT") {
        Some(IR::Subtract)
    } else if word_is(w, "MULTIPLY") {
        Some(IR::Multiply)
    } else if word_is(w, "DIVIDE") {
        Some(IR::Divide)
    } else if word_is(w, "PRINT") {
        Some(IR::Print)
    } else if word_is(w, "RETURN") {
        Some(IR::Return)
    } else if word_is(w, "HALT") {
        Some(IR::Halt)
    } else if word_is(w, "EQUAL") {
        Some(IR::Equal)
    } else if word_is(w, "LT") {
        Some(IR::LessThan)
    } else if word_is(w, "GT") {
        Some(IR::GreaterThan)
    } else if word_is(w, "DUP") {
        Some(IR::Dup)
    } else if word_is(w, "SWAP") {
        Some(IR::Swap)
    } else if word_is(w, "POP") {
        Some(IR::Pop)
    } else if word_is(w, "NOT") {
        Some(IR::Not)
    } else if word_is(w, "IF") {
        Some(IR::If)
    } else if word_is(w, "ELSE") {
        Some(IR::Else)
    } else if word_is(w, "ENDIF") {
        Some(IR::EndIf)
    } else if word_is(w, "WHILE") {
        Some(IR::While)
    } else if word_is(w, "ENDWHILE") {
        Some(IR::EndWhile)
    } else if word_is(w, "DO") {
        Some(IR::Do)
    } else if word_is(w, "ENDDO") {
        Some(IR::EndDo)
    } else {
        None
    }
}

fn named<T: Copy>(w: &Vec<char>, name: &Vec<char>) -> (r: Option<IR<T>>)
    ensures
        opt_view(r) == named_ir::<T>(w@, name@),
{
    if word_is(w, "JUMP") {
        Some(IR::Jump(string_of(name)))
    } else if word_is(w, "CALL") {
        Some(IR::Call(string_of(name)))
    } else if word_is(w, "CJUMP") {
        Some(IR::ConditionalJump(string_of(name)))
    } else if word_is(w, "STORE") {
        Some(IR::Store(string_of(name)))
    } else if word_is(w, "LOAD") {
        Some(IR::Load(string_of(name)))
    } else if word_is(w, "LABEL") {
        Some(IR::Label(string_of(name)))
    } else {
        None
    }
}

/// A name that lowering never makes up: it does not start with `;`.
pub open spec fn is_user_name(n: Seq<char>) -> bool {
    !(n.len() > 0 && n[0] == ';')
}

/// Every label that `x` declares or refers to has a user name.
pub open spec fn has_user_labels<T>(x: IR<T, Seq<char>>) -> bool {
    match x {
        IR::Jump(n) => is_user_name(n),
        IR::Call(n) => is_user_name(n),
        IR::ConditionalJump(n) => is_user_name(n),
        IR::Label(n) => is_user_name(n),
        _ => true,
    }
}

spec fn no_semicolon(w: Seq<char>) -> bool {
    forall|k: int| 0 <= k < w.len() ==> w[k] != ';'
}

/// The words of the line being read.
struct LineWords {
    count: usize,
    first: Vec<char>,
    second: Vec<char>,
    word: Vec<char>,
    comment: bool,
}

impl LineWords {
    spec fn at<T>(&self, out: Result<Seq<IR<T, Seq<char>>>, AsmError<Seq<char>>>, line: nat) -> Scan<T> {
        Scan {
            out,
            line,
            count: self.count as nat,
            first: self.first@,
            second: self.second@,
            word: self.word@,
            comment: self.comment,
        }
    }

    fn new() -> (r: LineWords)
        ensures
            r.count == 0,
            r.first@ == Seq::<char>::empty(),
            r.second@ == Seq::<char>::empty(),
            r.word@ == Seq::<char>::empty(),
            !r.comment,
    {
        LineWords { count: 0, first: Vec::new(), second: Vec::new(), word: Vec::new(), comment: false }
    }

    fn end_word<T>(&mut self)
        requires
            old(self).word@.len() > 0 ==> old(self).count < usize::MAX,
        ensures
            forall|o, l| #[trigger] final(self).at::<T>(o, l) == end_word(old(self).at::<T>(o, l)),
            final(self).count <= old(self).count + 1,
    {
        if self.word.len() > 0 {
            let mut w: Vec<char> = Vec::new();
            core::mem::swap(&mut w, &mut self.word);
            if self.count == 0 {
                self.first = w;
            } else if self.count == 1 {
                self.second = w;
            }
            self.count = self.count + 1;
        }
    }
}

/// Turn source text into instructions, one per non-blank line.
///
/// Each line is cut at its first `;`, then split at white space. The first
/// word, in any ASCII case, names the instruction; `PUSH` takes a decimal
/// `i32`, `JUMP`, `CALL`, `CJUMP`, `STORE`, `LOAD` and `LABEL` take a name,
/// the others take nothing. The first malformed line is reported.
pub fn parse_ir<T: Number>(input: &str) -> (r: Result<Vec<IR<T>>, AsmError>)
    ensures
        match r {
            Ok(v) => parse_spec::<T>(input@) == Ok::<_, AsmError<Seq<char>>>(ir_views(v@)),
            Err(e) => parse_spec::<T>(input@) == Err::<Seq<IR<T, Seq<char>>>, _>(e@),
        },
        r is Ok ==> forall|k: int|
            0 <= k < r->Ok_0@.len() ==> has_user_labels(#[trigger] r->Ok_0@[k]@),
{
    let text = chars_of(input);
    let n = text.len();
    let mut out: Vec<IR<T>> = Vec::new();
    let mut line: usize = 0;
    let mut words = LineWords::new();
    let mut i: usize = 0;
    assert(text@.take(0) =~= Seq::<char>::empty());
    assert(ir_views(out@) =~= Seq::<IR<T, Seq<char>>>::empty());
    while i < n
        invariant
            n == text@.len(),
            text@ == input@,
            i <= n,
            line <= i,
            words.count + words.word@.len() <= i,
            words.count > 0 || words.word@.len() > 0 ==> line < i,
            no_semicolon(words.word@),
            no_semicolon(words.first@),
            no_semicolon(words.second@),
            forall|k: int| 0 <= k < out@.len() ==> has_user_labels(#[trigger] out@[k]@),
            scan::<T>(text@.take(i as int)) == words.at::<T>(Ok(ir_views(out@)), line as nat),
        decreases n - i,
    {
        let c = text[i];
        let ghost before = words.at::<T>(Ok(ir_views(out@)), line as nat);
        proof {
            assert(text@.take(i + 1).drop_last() =~= text@.take(i as int));
        }
        if c == '\n' {
            match finish_line(&mut words, &mut out, line) {
                Ok(()) => {},
                Err(e) => {
                    proof {
                        lemma_scan_error_stays::<T>(text@, i + 1);
                    }
                    return Err(e);
                },
            }
            line = line + 1;
            assert(words.at::<T>(Ok(ir_views(out@)), line as nat) == scan_char(before, c));
        } else if words.comment {
        } else if c == ';' {
            words.end_word::<T>();
            words.comment = true;
            assert(words.at::<T>(Ok(ir_views(out@)), line as nat) == scan_char(before, c));
        } else if space(c) {
            words.end_word::<T>();
            assert(words.at::<T>(Ok(ir_views(out@)), line as nat) == scan_char(before, c));
        } else {
            words.word.push(c);
        }
        i += 1;
    }
    assert(text@.take(n as int) =~= text@);
    match finish_line(&mut words, &mut out, line) {
        Ok(()) => Ok(out),
        Err(e) => Err(e),
    }
}

/// End the current line: append what it stands for to `out`.
fn finish_line<T: Number>(words: &mut LineWords, out: &mut Vec<IR<T>>, line: usize) -> (r: Result<(), AsmError>)
    requires
        old(words).word@.len() > 0 ==> old(words).count < usize::MAX,
        old(words).count > 0 || old(words).word@.len() > 0 ==> line < usize::MAX,
        no_semicolon(old(words).word@),
        no_semicolon(old(words).first@),
        no_semicolon(old(words).second@),
        forall|k: int| 0 <= k < old(out)@.len() ==> has_user_labels(#[trigger] old(out)@[k]@),
    ensures
        forall|k: int| 0 <= k < final(out)@.len() ==> has_user_labels(#[trigger] final(out)@[k]@),
        no_semicolon(final(words).word@),
        no_semicolon(final(words).first@),
        no_semicolon(final(words).second@),
        match r {
            Ok(()) => final(words).at::<T>(Ok(ir_views(final(out)@)), (line + 1) as nat) == end_line(
                old(words).at::<T>(Ok(ir_views(old(out)@)), line as nat),
            ),
            Err(e) => end_line(old(words).at::<T>(Ok(ir_views(old(out)@)), line as nat)).out == Err::<
                Seq<IR<T, Seq<char>>>,
                _,
            >(e@),
        },
{
    let ghost s0 = old(words).at::<T>(Ok(ir_views(out@)), line as nat);
    words.end_word::<T>();
    assert(words.at::<T>(Ok(ir_views(out@)), line as nat) == end_word(s0));
    let res = if words.count == 0 {
        Ok(None)
    } else {
        line_instruction::<T>(words.count, &words.first, &words.second, line + 1)
    };
    let r = match res {
        Err(e) => Err(e),
        Ok(None) => Ok(()),
        Ok(Some(x)) => {
            out.push(x);
            assert(ir_views(out@) =~= ir_views(old(out)@).push(x@));
            Ok(())
        },
    };
    *words = LineWords::new();
    r
}

/// What a line holding `count` words, the first two being `first` and
/// `second`, stands for.
fn line_instruction<T: Number>(count: usize, first: &Vec<char>, second: &Vec<char>, line: usize) -> (r: Result<
    Option<IR<T>>,
    AsmError,
>)
    requires
        no_semicolon(second@),
    ensures
        r matches Ok(Some(x)) ==> has_user_labels(x@),
        match r {
            Ok(o) => line_ir::<T>(count as nat, first@, second@, line) == Ok::<_, AsmError<Seq<char>>>(
                opt_view(o),
            ),
            Err(e) => line_ir::<T>(count as nat, first@, second@, line) == Err::<
                Option<IR<T, Seq<char>>>,
                _,
            >(e@),
        },
{
    if count == 0 {
        return Ok(None);
    }
    if word_is(first, "PUSH") {
        if count != 2 {
            return Err(AsmError::MalformedLine { line, defect: LineDefect::WrongOperandCount });
        }
        return match parse_i32(second) {
            Some(v) => Ok(Some(IR::Push(T::from_i32(v)))),
            None => Err(AsmError::MalformedLine { line, defect: LineDefect::InvalidNumber }),
        };
    }
    match named::<T>(first, second) {
        Some(x) => {
            if count != 2 {
                return Err(AsmError::MalformedLine { line, defect: LineDefect::WrongOperandCount });
            }
            return Ok(Some(x));
        },
        None => {},
    }
    match nullary::<T>(first) {
        Some(x) => {
            if count != 1 {
                return Err(AsmError::MalformedLine { line, defect: LineDefect::WrongOperandCount });
            }
            Ok(Some(x))
        },
        None => Err(AsmError::MalformedLine { line, defect: LineDefect::UnknownInstruction }),
    }
}

/// Whether the instruction is a structured control-flow marker.
pub open spec fn is_marker<T, N>(x: IR<T, N>) -> bool {
    match x {
        IR::If | IR::Else | IR::EndIf | IR::While | IR::EndWhile | IR::Do | IR::EndDo => true,
        _ => false,
    }
}

/// The label lowering puts at output position `pos`. It starts with `;`,
/// which no word of source text holds, so it never names a label of the
/// source; distinct positions give distinct labels.
pub open spec fn synth_label(pos: nat) -> Seq<char> {
    seq![';', 'L'] + decimal_digits(pos)
}

/// An open construct: its kind, the output position of the jump still to
/// be patched, and for loops the label of the loop head.
pub struct Pending {
    pub kind: ControlKind,
    pub site: nat,
    pub head: Seq<char>,
}

/// Lower one instruction, given the output so far and the open constructs.
pub open spec fn lower_one<T>(
    out: Seq<IR<T, Seq<char>>>,
    open: Seq<Pending>,
    x: IR<T, Seq<char>>,
) -> Result<(Seq<IR<T, Seq<char>>>, Seq<Pending>), AsmError<Seq<char>>> {
    let n = out.len();
    let top = open.last();
    match x {
        IR::If => Ok(
            (
                out.push(IR::ConditionalJump(Seq::empty())),
                open.push(Pending { kind: ControlKind::If, site: n, head: Seq::empty() }),
            ),
        ),
        IR::Else => if open.len() > 0 && top.kind == ControlKind::If {
            let l = synth_label(n);
            Ok(
                (
                    out.update(top.site as int, IR::ConditionalJump(l)).push(
                        IR::Jump(Seq::empty()),
                    ).push(IR::Label(l)),
                    open.drop_last().push(
                        Pending { kind: ControlKind::Else, site: n, head: Seq::empty() },
                    ),
                ),
            )
        } else {
            Err(AsmError::ElseWithoutIf)
        },
        IR::EndIf => if open.len() > 0 && top.kind == ControlKind::Else {
            let l = synth_label(n);
            Ok((out.update(top.site as int, IR::Jump(l)).push(IR::Label(l)), open.drop_last()))
        } else if open.len() > 0 && top.kind == ControlKind::If {
            let l = synth_label(n);
            Ok(
                (
                    out.update(top.site as int, IR::ConditionalJump(l)).push(IR::Label(l)),
                    open.drop_last(),
                ),
            )
        } else {
            Err(AsmError::EndIfWithoutIf)
        },
        IR::While => {
            let l = synth_label(n);
            Ok(
                (
                    out.push(IR::Label(l)).push(IR::ConditionalJump(Seq::empty())),
                    open.push(Pending { kind: ControlKind::While, site: n + 1, head: l }),
                ),
            )
        },
        IR::EndWhile => if open.len() > 0 && top.kind == ControlKind::While {
            let e = synth_label(n + 1);
            Ok(
                (
                    out.push(IR::Jump(top.head)).update(top.site as int, IR::ConditionalJump(e)).push(
                        IR::Label(e),
                    ),
                    open.drop_last(),
                ),
            )
        } else {
            Err(AsmError::EndWhileWithoutWhile)
        },
        IR::Do => {
            let l = synth_label(n);
            Ok(
                (
                    out.push(IR::Label(l)),
                    open.push(Pending { kind: ControlKind::Do, site: n, head: l }),
                ),
            )
        },
        IR::EndDo => if open.len() > 0 && top.kind == ControlKind::Do {
            let e = synth_label(n);
            Ok(
                (
                    out.push(IR::ConditionalJump(e)).push(IR::Jump(top.head)).push(IR::Label(e)),
                    open.drop_last(),
                ),
            )
        } else {
            Err(AsmError::EndDoWithoutDo)
        },
        _ => Ok((out.push(x), open)),
    }
}

/// Lowering of a prefix: the output and the constructs still open, or the
/// first error.
pub open spec fn lower_prefix<T>(ir: Seq<IR<T, Seq<char>>>) -> Result<
    (Seq<IR<T, Seq<char>>>, Seq<Pending>),
    AsmError<Seq<char>>,
>
    decreases ir.len(),
{
    if ir.len() == 0 {
        Ok((Seq::empty(), Seq::empty()))
    } else {
        match lower_prefix(ir.drop_last()) {
            Err(e) => Err(e),
            Ok((o, p)) => lower_one(o, p, ir.last()),
        }
    }
}

/// The lowered form of `ir`, or why it has none.
pub open spec fn lower_spec<T>(ir: Seq<IR<T, Seq<char>>>) -> Result<
    Seq<IR<T, Seq<char>>>,
    AsmError<Seq<char>>,
> {
    match lower_prefix(ir) {
        Err(e) => Err(e),
        Ok((o, p)) => if p.len() == 0 {
            Ok(o)
        } else {
            Err(AsmError::UnbalancedControlFlow(p.last().kind))
        },
    }
}

proof fn lemma_lower_error_stays<T>(ir: Seq<IR<T, Seq<char>>>, i: int)
    requires
        0 <= i <= ir.len(),
        lower_prefix(ir.take(i)) is Err,
    ensures
        lower_spec(ir) == Err::<Seq<IR<T, Seq<char>>>, _>(lower_prefix(ir.take(i))->Err_0),
    decreases ir.len() - i,
{
    if i == ir.len() {
        assert(ir.take(i) =~= ir);
    } else {
        assert(ir.take(i + 1).drop_last() =~= ir.take(i));
        lemma_lower_error_stays(ir, i + 1);
    }
}

/// An open construct, as the lowering loop holds it.
struct Open {
    kind: ControlKind,
    site: usize,
    head: String,
}

spec fn open_views(v: Seq<Open>) -> Seq<Pending> {
    v.map_values(|o: Open| Pending { kind: o.kind, site: o.site as nat, head: o.head@ })
}

fn make_label(pos: usize) -> (r: String)
    ensures
        r@ == synth_label(pos as nat),
{
    let mut v: Vec<char> = Vec::new();
    v.push(';');
    v.push('L');
    push_decimal(&mut v, pos);
    assert(v@ =~= synth_label(pos as nat));
    string_of(&v)
}

/// A copy of an instruction that is no marker.
fn copy_ir<T: Copy>(x: &IR<T>) -> (r: IR<T>)
    ensures
        r@ == x@,
{
    match x {
        IR::Push(v) => IR::Push(*v),
        IR::Add => IR::Add,
        IR::Subtract => IR::Subtract,
        IR::Multiply => IR::Multiply,
        IR::Divide => IR::Divide,
        IR::Print => IR::Print,
        IR::Jump(n) => IR::Jump(n.clone()),
        IR::Call(n) => IR::Call(n.clone()),
        IR::ConditionalJump(n) => IR::ConditionalJump(n.clone()),
        IR::Label(n) => IR::Label(n.clone()),
        IR::Return => IR::Return,
        IR::Store(n) => IR::Store(n.clone()),
        IR::Load(n) => IR::Load(n.clone()),
        IR::Equal => IR::Equal,
        IR::LessThan => IR::LessThan,
        IR::GreaterThan => IR::GreaterThan,
        IR::Dup => IR::Dup,
        IR::Swap => IR::Swap,
        IR::Pop => IR::Pop,
        IR::If => IR::If,
        IR::Else => IR::Else,
        IR::EndIf => IR::EndIf,
        IR::While => IR::While,
        IR::EndWhile => IR::EndWhile,
        IR::Do => IR::Do,
        IR::EndDo => IR::EndDo,
        IR::Not => IR::Not,
        IR::Halt => IR::Halt,
    }
}

/// Rewrite `IF/ELSE/ENDIF`, `WHILE/ENDWHILE` and `DO/ENDDO` into labels,
/// jumps and conditional jumps, which jump when the popped condition is
/// zero. `IF` skips to the else branch (or past `ENDIF`) on zero; `WHILE`
/// leaves the loop on zero; `DO ... ENDDO` runs its body, then loops again
/// while the condition is non-zero. Every other instruction is kept as it
/// is, in order. The labels lowering makes up start with `;`; no label of
/// the input may, so the two never share a name (`parse_ir` never yields
/// such a name).
pub fn lower_control_flow<T: Number>(ir: Vec<IR<T>>) -> (r: Result<Vec<IR<T>>, AsmError>)
    requires
        forall|k: int| 0 <= k < ir@.len() ==> has_user_labels(#[trigger] ir@[k]@),
    ensures
        match r {
            Ok(v) => lower_spec(ir_views(ir@)) == Ok::<_, AsmError<Seq<char>>>(ir_views(v@)),
            Err(e) => lower_spec(ir_views(ir@)) == Err::<Seq<IR<T, Seq<char>>>, _>(e@),
        },
{
    let ghost src = ir_views(ir@);
    let mut out: Vec<IR<T>> = Vec::new();
    let mut open: Vec<Open> = Vec::new();
    let mut i: usize = 0;
    assert(src.take(0) =~= Seq::<IR<T, Seq<char>>>::empty());
    assert(ir_views(out@) =~= Seq::<IR<T, Seq<char>>>::empty());
    assert(open_views(open@) =~= Seq::<Pending>::empty());
    while i < ir.len()
        invariant
            src == ir_views(ir@),
            i <= ir@.len(),
            lower_prefix(src.take(i as int)) == Ok::<_, AsmError<Seq<char>>>(
                (ir_views(out@), open_views(open@)),
            ),
            forall|k: int| 0 <= k < open@.len() ==> open@[k].site < out@.len(),
        decreases ir@.len() - i,
    {
        let ghost out0 = ir_views(out@);
        let ghost open0 = open_views(open@);
        let ghost open_before = open@;
        proof {
            assert(src.take(i + 1).drop_last() =~= src.take(i as int));
            assert(src.take(i + 1).last() == ir@[i as int]@);
        }
        let n = out.len();
        match &ir[i] {
            IR::If => {
                open.push(Open { kind: ControlKind::If, site: n, head: String::new() });
                out.push(IR::ConditionalJump(String::new()));
            },
            IR::Else => {
                let top = open.pop();
                match top {
                    Some(p) => {
                        if p.kind != ControlKind::If {
                            proof {
                                lemma_lower_error_stays(src, i + 1);
                            }
                            return Err(AsmError::ElseWithoutIf);
                        }
                        let l = make_label(n);
                        out.set(p.site, IR::ConditionalJump(l.clone()));
                        open.push(Open { kind: ControlKind::Else, site: n, head: String::new() });
                        out.push(IR::Jump(String::new()));
                        out.push(IR::Label(l));
                    },
                    None => {
                        proof {
                            lemma_lower_error_stays(src, i + 1);
                        }
                        return Err(AsmError::ElseWithoutIf);
                    },
                }
            },
            IR::EndIf => {
                let top = open.pop();
                match top {
                    Some(p) => {
                        let l = make_label(n);
                        if p.kind == ControlKind::Else {
                            out.set(p.site, IR::Jump(l.clone()));
                        } else if p.kind == ControlKind::If {
                            out.set(p.site, IR::ConditionalJump(l.clone()));
                        } else {
                            proof {
                                lemma_lower_error_stays(src, i + 1);
                            }
                            return Err(AsmError::EndIfWithoutIf);
                        }
                        out.push(IR::Label(l));
                    },
                    None => {
                        proof {
                            lemma_lower_error_stays(src, i + 1);
                        }
                        return Err(AsmError::EndIfWithoutIf);
                    },
                }
            },
            IR::While => {
                let l = make_label(n);
                out.push(IR::Label(l.clone()));
                open.push(Open { kind: ControlKind::While, site: out.len(), head: l });
                out.push(IR::ConditionalJump(String::new()));
            },
            IR::EndWhile => {
                let top = open.pop();
                match top {
                    Some(p) => {
                        if p.kind != ControlKind::While {
                            proof {
                                lemma_lower_error_stays(src, i + 1);
                            }
                            return Err(AsmError::EndWhileWithoutWhile);
                        }
                        out.push(IR::Jump(p.head));
                        let e = make_label(out.len());
                        out.set(p.site, IR::ConditionalJump(e.clone()));
                        out.push(IR::Label(e));
                    },
                    None => {
                        proof {
                            lemma_lower_error_stays(src, i + 1);
                        }
                        return Err(AsmError::EndWhileWithoutWhile);
                    },
                }
            },
            IR::Do => {
                let l = make_label(n);
                out.push(IR::Label(l.clone()));
                open.push(Open { kind: ControlKind::Do, site: n, head: l });
            },
            IR::EndDo => {
                let top = open.pop();
                match top {
                    Some(p) => {
                        if p.kind != ControlKind::Do {
                            proof {
                                lemma_lower_error_stays(src, i + 1);
                            }
                            return Err(AsmError::EndDoWithoutDo);
                        }
                        let e = make_label(n);
                        out.push(IR::ConditionalJump(e.clone()));
                        out.push(IR::Jump(p.head));
                        out.push(IR::Label(e));
                    },
                    None => {
                        proof {
                            lemma_lower_error_stays(src, i + 1);
                        }
                        return Err(AsmError::EndDoWithoutDo);
                    },
                }
            },
            other => {
                out.push(copy_ir(other));
            },
        }
        proof {
            let want = lower_one(out0, open0, src[i as int]);
            assert(ir_views(out@) =~= want->Ok_0.0);
            assert(open_views(open@) =~= want->Ok_0.1);
            assert forall|k: int| 0 <= k < open@.len() implies open@[k].site < out@.len() by {
                assert(open_views(open@)[k].site == open@[k].site);
                if k < open_before.len() {
                    assert(open_views(open_before)[k].site == open_before[k].site);
                }
            }
        }
        i += 1;
    }
    assert(src.take(ir@.len() as int) =~= src);
    if open.len() > 0 {
        let k = open.len() - 1;
        return Err(AsmError::UnbalancedControlFlow(open[k].kind));
    }
    Ok(out)
}

/// How many entries of `s` are no label declarations.
pub open spec fn code_len<T>(s: Seq<IR<T, Seq<char>>>) -> nat
    decreases s.len(),
{
    if s.len() == 0 {
        0
    } else {
        code_len(s.drop_last()) + if s.last() is Label {
            0nat
        } else {
            1nat
        }
    }
}

/// The address `name` is bound to in `s`: at its last declaration, the
/// number of entries before it that are no label declarations.
pub open spec fn label_addr<T>(s: Seq<IR<T, Seq<char>>>, name: Seq<char>) -> Option<nat>
    decreases s.len(),
{
    if s.len() == 0 {
        None
    } else if s.last() == IR::<T, Seq<char>>::Label(name) {
        Some(code_len(s.drop_last()))
    } else {
        label_addr(s.drop_last(), name)
    }
}

/// The final instruction an entry of `all` becomes: none for a label
/// declaration, a jump or call to the label's address, or the same
/// instruction.
pub open spec fn resolve_one<T>(all: Seq<IR<T, Seq<char>>>, x: IR<T, Seq<char>>) -> Result<
    Option<Instruction<T, Seq<char>>>,
    AsmError<Seq<char>>,
> {
    match x {
        IR::Jump(n) => match label_addr(all, n) {
            Some(a) => Ok(Some(Instruction::Jump(a as usize))),
            None => Err(AsmError::UndefinedLabel(n)),
        },
        IR::Call(n) => match label_addr(all, n) {
            Some(a) => Ok(Some(Instruction::Call(a as usize))),
            None => Err(AsmError::UndefinedLabel(n)),
        },
        IR::ConditionalJump(n) => match label_addr(all, n) {
            Some(a) => Ok(Some(Instruction::ConditionalJump(a as usize))),
            None => Err(AsmError::UndefinedLabel(n)),
        },
        IR::Push(v) => Ok(Some(Instruction::Push(v))),
        IR::Add => Ok(Some(Instruction::Add)),
        IR::Subtract => Ok(Some(Instruction::Subtract)),
        IR::Multiply => Ok(Some(Instruction::Multiply)),
        IR::Divide => Ok(Some(Instruction::Divide)),
        IR::Print => Ok(Some(Instruction::Print)),
        IR::Return => Ok(Some(Instruction::Return)),
        IR::Halt => Ok(Some(Instruction::Halt)),
        IR::Store(n) => Ok(Some(Instruction::Store(n))),
        IR::Load(n) => Ok(Some(Instruction::Load(n))),
        IR::Equal => Ok(Some(Instruction::Equal)),
        IR::LessThan => Ok(Some(Instruction::LessThan)),
        IR::GreaterThan => Ok(Some(Instruction::GreaterThan)),
        IR::Dup => Ok(Some(Instruction::Dup)),
        IR::Swap => Ok(Some(Instruction::Swap)),
        IR::Pop => Ok(Some(Instruction::Pop)),
        IR::Not => Ok(Some(Instruction::Not)),
        _ => Ok(None),
    }
}

/// The final instructions of the first `k` entries of `all`, or the first
/// undefined label among them.
pub open spec fn resolve_prefix<T>(all: Seq<IR<T, Seq<char>>>, k: nat) -> Result<
    Seq<Instruction<T, Seq<char>>>,
    AsmError<Seq<char>>,
>
    decreases k,
{
    if k == 0 {
        Ok(Seq::empty())
    } else {
        match resolve_prefix(all, (k - 1) as nat) {
            Err(e) => Err(e),
            Ok(v) => match resolve_one(all, all[k - 1]) {
                Err(e) => Err(e),
                Ok(None) => Ok(v),
                Ok(Some(i)) => Ok(v.push(i)),
            },
        }
    }
}

/// Label resolution of a whole lowered program.
pub open spec fn resolve_spec<T>(all: Seq<IR<T, Seq<char>>>) -> Result<
    Seq<Instruction<T, Seq<char>>>,
    AsmError<Seq<char>>,
> {
    resolve_prefix(all, all.len())
}

/// The whole pipeline: parse, lower, resolve labels.
pub open spec fn assemble_spec<T: Number>(t: Seq<char>) -> Result<
    Seq<Instruction<T, Seq<char>>>,
    AsmError<Seq<char>>,
> {
    match parse_spec::<T>(t) {
        Err(e) => Err(e),
        Ok(p) => match lower_spec(p) {
            Err(e) => Err(e),
            Ok(l) => resolve_spec(l),
        },
    }
}

/// The views of a sequence of final instructions.
pub open spec fn instr_views<T: Copy>(v: Seq<Instruction<T>>) -> Seq<Instruction<T, Seq<char>>> {
    v.map_values(|i: Instruction<T>| i@)
}

/// The declarations of `s` in order, each with its address.
spec fn label_table<T>(s: Seq<IR<T, Seq<char>>>) -> Seq<(Seq<char>, nat)>
    decreases s.len(),
{
    if s.len() == 0 {
        Seq::empty()
    } else {
        match s.last() {
            IR::Label(n) => label_table(s.drop_last()).push((n, code_len(s.drop_last()))),
            _ => label_table(s.drop_last()),
        }
    }
}

/// The address of the last entry for `name`.
spec fn table_find(t: Seq<(Seq<char>, nat)>, name: Seq<char>) -> Option<nat>
    decreases t.len(),
{
    if t.len() == 0 {
        None
    } else if t.last().0 == name {
        Some(t.last().1)
    } else {
        table_find(t.drop_last(), name)
    }
}

proof fn lemma_table_find<T>(s: Seq<IR<T, Seq<char>>>, name: Seq<char>)
    ensures
        table_find(label_table(s), name) == label_addr(s, name),
    decreases s.len(),
{
    if s.len() > 0 {
        lemma_table_find(s.drop_last(), name);
        let t = label_table(s.drop_last());
        match s.last() {
            IR::Label(n) => {
                assert(t.push((n, code_len(s.drop_last()))).drop_last() =~= t);
            },
            _ => {},
        }
    }
}

proof fn lemma_lower_plain<T>(ir: Seq<IR<T, Seq<char>>>)
    requires
        lower_prefix(ir) is Ok,
    ensures
        forall|k: int|
            0 <= k < lower_prefix(ir)->Ok_0.0.len() ==> !is_marker(
                #[trigger] lower_prefix(ir)->Ok_0.0[k],
            ),
        forall|j: int|
            0 <= j < lower_prefix(ir)->Ok_0.1.len() ==> #[trigger] lower_prefix(ir)->Ok_0.1[j].site
                < lower_prefix(ir)->Ok_0.0.len(),
    decreases ir.len(),
{
    if ir.len() > 0 {
        lemma_lower_plain(ir.drop_last());
        let o = lower_prefix(ir.drop_last())->Ok_0.0;
        let p = lower_prefix(ir.drop_last())->Ok_0.1;
        let r = lower_one(o, p, ir.last())->Ok_0.0;
        let q = lower_one(o, p, ir.last())->Ok_0.1;
        assert(p.len() > 0 ==> p.last().site < o.len());
        assert forall|k: int| 0 <= k < r.len() implies !is_marker(#[trigger] r[k]) by {
            if k < o.len() {
                assert(!is_marker(o[k]));
            }
        }
        assert forall|j: int| 0 <= j < q.len() implies #[trigger] q[j].site < r.len() by {
            if j < p.len() {
                assert(p[j].site < o.len());
            }
        }
    }
}

spec fn table_views(t: Seq<(String, usize)>) -> Seq<(Seq<char>, nat)> {
    t.map_values(|e: (String, usize)| (e.0@, e.1 as nat))
}

fn find_label(table: &Vec<(String, usize)>, name: &String) -> (r: Option<usize>)
    ensures
        match r {
            Some(a) => table_find(table_views(table@), name@) == Some(a as nat),
            None => table_find(table_views(table@), name@) is None,
        },
{
    let ghost tv = table_views(table@);
    let mut j: usize = table.len();
    assert(tv.take(j as int) =~= tv);
    while j > 0
        invariant
            j <= table@.len(),
            tv == table_views(table@),
            table_find(tv, name@) == table_find(tv.take(j as int), name@),
        decreases j,
    {
        assert(tv.take(j - 1) =~= tv.take(j as int).drop_last());
        if table[j - 1].0 == *name {
            return Some(table[j - 1].1);
        }
        j -= 1;
    }
    None
}

/// Bind each label to its address and replace every jump, call and
/// conditional-jump target by the address of the label it names; label
/// declarations are dropped. A label declared twice is bound by its last
/// declaration. Targets may refer forward as well as backward. The input
/// is lowered code: it holds no structured markers.
pub fn resolve_labels<T: Number>(lowered: Vec<IR<T>>) -> (r: Result<Vec<Instruction<T>>, AsmError>)
    requires
        forall|k: int| 0 <= k < lowered@.len() ==> !is_marker(#[trigger] lowered@[k]@),
    ensures
        match r {
            Ok(v) => resolve_spec(ir_views(lowered@)) == Ok::<_, AsmError<Seq<char>>>(instr_views(v@)),
            Err(e) => resolve_spec(ir_views(lowered@)) == Err::<Seq<Instruction<T, Seq<char>>>, _>(e@),
        },
{
    let ghost all = ir_views(lowered@);
    let n = lowered.len();
    let mut table: Vec<(String, usize)> = Vec::new();
    let mut code: usize = 0;
    let mut i: usize = 0;
    assert(all.take(0) =~= Seq::<IR<T, Seq<char>>>::empty());
    assert(table_views(table@) =~= Seq::<(Seq<char>, nat)>::empty());
    while i < n
        invariant
            n == lowered@.len(),
            all == ir_views(lowered@),
            i <= n,
            code <= i,
            code as nat == code_len(all.take(i as int)),
            table_views(table@) == label_table(all.take(i as int)),
        decreases n - i,
    {
        assert(all.take(i + 1).drop_last() =~= all.take(i as int));
        match &lowered[i] {
            IR::Label(name) => {
                table.push((name.clone(), code));
                assert(table_views(table@) =~= label_table(all.take(i + 1)));
            },
            _ => {
                code = code + 1;
            },
        }
        i += 1;
    }
    assert(all.take(n as int) =~= all);
    let mut out: Vec<Instruction<T>> = Vec::new();
    let mut k: usize = 0;
    assert(instr_views(out@) =~= Seq::<Instruction<T, Seq<char>>>::empty());
    while k < n
        invariant
            n == lowered@.len(),
            all == ir_views(lowered@),
            k <= n,
            table_views(table@) == label_table(all),
            resolve_prefix(all, k as nat) == Ok::<_, AsmError<Seq<char>>>(instr_views(out@)),
        decreases n - k,
    {
        let ghost before = instr_views(out@);
        let x = &lowered[k];
        let target = match x {
            IR::Jump(name) | IR::Call(name) | IR::ConditionalJump(name) => {
                proof {
                    lemma_table_find(all, name@);
                }
                match find_label(&table, name) {
                    Some(a) => a,
                    None => {
                        proof {
                            lemma_resolve_error_stays(all, (k + 1) as nat);
                        }
                        return Err(AsmError::UndefinedLabel(name.clone()));
                    },
                }
            },
            _ => 0,
        };
        match x {
            IR::Jump(_) => out.push(Instruction::Jump(target)),
            IR::Call(_) => out.push(Instruction::Call(target)),
            IR::ConditionalJump(_) => out.push(Instruction::ConditionalJump(target)),
            IR::Push(v) => out.push(Instruction::Push(*v)),
            IR::Add => out.push(Instruction::Add),
            IR::Subtract => out.push(Instruction::Subtract),
            IR::Multiply => out.push(Instruction::Multiply),
            IR::Divide => out.push(Instruction::Divide),
            IR::Print => out.push(Instruction::Print),
            IR::Return => out.push(Instruction::Return),
            IR::Halt => out.push(Instruction::Halt),
            IR::Store(name) => out.push(Instruction::Store(name.clone())),
            IR::Load(name) => out.push(Instruction::Load(name.clone())),
            IR::Equal => out.push(Instruction::Equal),
            IR::LessThan => out.push(Instruction::LessThan),
            IR::GreaterThan => out.push(Instruction::GreaterThan),
            IR::Dup => out.push(Instruction::Dup),
            IR::Swap => out.push(Instruction::Swap),
            IR::Pop => out.push(Instruction::Pop),
            IR::Not => out.push(Instruction::Not),
            _ => {},
        }
        proof {
            match resolve_one(all, all[k as int]) {
                Ok(Some(ins)) => {
                    assert(instr_views(out@) =~= before.push(ins));
                },
                _ => {
                    assert(instr_views(out@) =~= before);
                },
            }
        }
        k += 1;
    }
    Ok(out)
}

proof fn lemma_resolve_error_stays<T>(all: Seq<IR<T, Seq<char>>>, k: nat)
    requires
        k <= all.len(),
        resolve_prefix(all, k) is Err,
    ensures
        resolve_spec(all) == resolve_prefix(all, k),
    decreases all.len() - k,
{
    if k < all.len() {
        lemma_resolve_error_stays(all, k + 1);
    }
}

/// Assemble source text into the flat program the machine runs: parse,
/// lower the structured constructs, resolve labels.
pub fn assemble<T: Number>(input: &str) -> (r: Result<Vec<Instruction<T>>, AsmError>)
    ensures
        match r {
            Ok(v) => assemble_spec::<T>(input@) == Ok::<_, AsmError<Seq<char>>>(instr_views(v@)),
            Err(e) => assemble_spec::<T>(input@) == Err::<Seq<Instruction<T, Seq<char>>>, _>(e@),
        },
{
    let parsed = parse_ir::<T>(input)?;
    let lowered = lower_control_flow(parsed)?;
    proof {
        lemma_lower_plain(ir_views(parsed@));
        assert forall|k: int| 0 <= k < lowered@.len() implies !is_marker(
            #[trigger] lowered@[k]@,
        ) by {
            assert(ir_views(lowered@)[k] == lowered@[k]@);
        }
    }
    resolve_labels(lowered)
}

} // verus!
