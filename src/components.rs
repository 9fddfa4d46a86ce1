//! Register names, operands, operations and the per-register queue.
use std::collections::VecDeque;
use vstd::prelude::*;

verus! {

// ---------------------------------------------------------------------------
// Reading a signed 32-bit integer out of text
// ---------------------------------------------------------------------------

pub open spec fn is_digit(c: char) -> bool {
    '0' <= c && c <= '9'
}

pub open spec fn digit_value(c: char) -> int {
    (c as int) - ('0' as int)
}

pub open spec fn all_digits(s: Seq<char>) -> bool {
    forall|k: int| 0 <= k < s.len() ==> is_digit(#[trigger] s[k])
}

/// The value of a string of decimal digits, most significant first.
pub open spec fn digits_value(s: Seq<char>) -> int
    decreases s.len(),
{
    if s.len() == 0 {
        0
    } else {
        10 * digits_value(s.drop_last()) + digit_value(s.last())
    }
}

/// The integer that `s` spells: an optional `+` or `-`, then one or more digits.
pub open spec fn integer_of(s: Seq<char>) -> Option<int> {
    let signed = s.len() > 0 && (s[0] == '+' || s[0] == '-');
    let body = if signed { s.drop_first() } else { s };
    if body.len() > 0 && all_digits(body) {
        if signed && s[0] == '-' {
            Some(-digits_value(body))
        } else {
            Some(digits_value(body))
        }
    } else {
        None
    }
}

/// The `i32` that `s` spells, if it spells one in range.
pub open spec fn i32_of(s: Seq<char>) -> Option<i32> {
    match integer_of(s) {
        Some(v) => if i32::MIN <= v <= i32::MAX {
            Some(v as i32)
        } else {
            None
        },
        None => None,
    }
}

proof fn lemma_digits_value_nonneg(s: Seq<char>)
    requires
        all_digits(s),
    ensures
        digits_value(s) >= 0,
    decreases s.len(),
{
    if s.len() > 0 {
        assert(is_digit(s[s.len() - 1]));
        lemma_digits_value_nonneg(s.drop_last());
    }
}

/// A longer run of digits is worth at least as much as its prefix.
proof fn lemma_digits_value_prefix(s: Seq<char>, j: int)
    requires
        all_digits(s),
        0 <= j <= s.len(),
    ensures
        digits_value(s.subrange(0, j)) <= digits_value(s),
    decreases s.len(),
{
    if j < s.len() {
        let t = s.drop_last();
        assert(t.subrange(0, j) =~= s.subrange(0, j));
        lemma_digits_value_prefix(t, j);
        lemma_digits_value_nonneg(t);
        assert(is_digit(s[s.len() - 1]));
    } else {
        assert(s.subrange(0, j) =~= s);
    }
}

/// Reads `s` as a signed 32-bit integer, as `str::parse::<i32>` does.
pub fn parse_i32(s: &str) -> (r: Option<i32>)
    ensures
        r == i32_of(s@),
{
    let n = s.unicode_len();
    if n == 0 {
        return None;
    }
    let first = s.get_char(0);
    let signed = first == '+' || first == '-';
    let negative = first == '-';
    let start: usize = if signed { 1 } else { 0 };
    let ghost body = if signed { s@.drop_first() } else { s@ };
    assert(body =~= s@.subrange(start as int, n as int));
    if start == n {
        return None;
    }
    let mut acc: i64 = 0;
    let mut k: usize = start;
    while k < n
        invariant
            start <= k <= n,
            n == s@.len(),
            n > 0,
            first == s@[0],
            signed == (first == '+' || first == '-'),
            negative == (first == '-'),
            start == (if signed { 1usize } else { 0usize }),
            body == (if signed { s@.drop_first() } else { s@ }),
            body =~= s@.subrange(start as int, n as int),
            all_digits(body.subrange(0, k - start)),
            acc == digits_value(body.subrange(0, k - start)),
            0 <= acc <= 2147483648,
        decreases n - k,
    {
        let c = s.get_char(k);
        if !('0' <= c && c <= '9') {
            assert(body[k - start] == c);
            assert(!is_digit(body[k - start]));
            assert(!all_digits(body));
            return None;
        }
        let d = (c as u32 - '0' as u32) as i64;
        let ghost prefix = body.subrange(0, k + 1 - start);
        assert(prefix.drop_last() =~= body.subrange(0, k - start));
        assert(prefix.last() == c);
        acc = acc * 10 + d;
        k = k + 1;
        if acc > 2147483648 {
            proof {
                if all_digits(body) {
                    lemma_digits_value_prefix(body, k - start);
                    assert(digits_value(body) > 2147483648);
                }
            }
            assert(i32_of(s@) is None);
            return None;
        }
    }
    assert(body.subrange(0, k - start) =~= body);
    if negative {
        Some((-acc) as i32)
    } else if acc <= 2147483647 {
        Some(acc as i32)
    } else {
        None
    }
}

/// Whether two strings hold the same characters.
pub fn same_text(a: &str, b: &str) -> (r: bool)
    ensures
        r == (a@ == b@),
{
    let n = a.unicode_len();
    if n != b.unicode_len() {
        return false;
    }
    let mut k: usize = 0;
    while k < n
        invariant
            n == a@.len() == b@.len(),
            k <= n,
            a@.subrange(0, k as int) =~= b@.subrange(0, k as int),
        decreases n - k,
    {
        if a.get_char(k) != b.get_char(k) {
            return false;
        }
        assert(a@.subrange(0, k + 1) =~= a@.subrange(0, k as int).push(a@[k as int]));
        assert(b@.subrange(0, k + 1) =~= b@.subrange(0, k as int).push(b@[k as int]));
        k = k + 1;
    }
    assert(a@ =~= a@.subrange(0, n as int));
    assert(b@ =~= b@.subrange(0, n as int));
    true
}

// ---------------------------------------------------------------------------
// Errors
// ---------------------------------------------------------------------------

/// Why a command's words could not be turned into an operation or a name.
#[derive(Debug, PartialEq, Eq)]
pub enum ParseError {
    /// The text reads as an integer, so it cannot name a register.
    InvalidRegisterName(String),
    /// The verb is none of `add`, `subtract`, `multiply`.
    UnknownVerb(String),
}

/// Why a register's value could not be computed.
#[derive(Debug, PartialEq, Eq)]
pub enum EvalError {
    /// A register's value depends on itself; holds the names of the
    /// registers being resolved when the loop was found, outermost first.
    CycleDetected(Vec<String>),
}

// ---------------------------------------------------------------------------
// Register names
// ---------------------------------------------------------------------------

/// The name of a register: any text that does not read as an `i32`.
#[derive(Debug)]
pub struct RegID {
    name: String,
}

impl View for RegID {
    type V = Seq<char>;

    closed spec fn view(&self) -> Seq<char> {
        self.name@
    }
}

/// Whether `s` may name a register.
pub open spec fn is_register_name(s: Seq<char>) -> bool {
    i32_of(s) is None
}

impl RegID {
    pub open spec fn valid(&self) -> bool {
        is_register_name(self@)
    }

    /// Takes `name` as a register name, refusing text that reads as an `i32`.
    pub fn new(name: String) -> (r: Result<RegID, ParseError>)
        ensures
            is_register_name(name@) <==> r is Ok,
            r matches Ok(id) ==> id@ == name@ && id.valid(),
            r matches Err(e) ==> e matches ParseError::InvalidRegisterName(t) && t@ == name@,
    {
        if parse_i32(name.as_str()).is_some() {
            return Err(ParseError::InvalidRegisterName(name));
        }
        Ok(RegID { name })
    }

    pub fn as_str(&self) -> (r: &str)
        ensures
            r@ == self@,
    {
        self.name.as_str()
    }

    /// A second name equal to this one.
    pub fn duplicate(&self) -> (r: RegID)
        ensures
            r@ == self@,
    {
        RegID { name: self.name.clone() }
    }

    pub fn same(&self, other: &RegID) -> (r: bool)
        ensures
            r == (self@ == other@),
    {
        self.name == other.name
    }
}

// ---------------------------------------------------------------------------
// Operands and operations
// ---------------------------------------------------------------------------

/// The second operand of an operation.
#[derive(Debug)]
pub enum Operand {
    Register(RegID),
    Number(i32),
}

/// What an operand stands for, as plain values.
pub enum OperandModel {
    Register(Seq<char>),
    Number(i32),
}

impl View for Operand {
    type V = OperandModel;

    open spec fn view(&self) -> OperandModel {
        match self {
            Operand::Register(id) => OperandModel::Register(id@),
            Operand::Number(v) => OperandModel::Number(*v),
        }
    }
}

/// The operand that the text `s` stands for: a number if it reads as one,
/// else a register name.
pub open spec fn operand_of(s: Seq<char>) -> OperandModel {
    match i32_of(s) {
        Some(v) => OperandModel::Number(v),
        None => OperandModel::Register(s),
    }
}

impl Operand {
    pub fn new(value: &str) -> (r: Operand)
        ensures
            r@ == operand_of(value@),
    {
        match parse_i32(value) {
            Some(number) => Operand::Number(number),
            None => Operand::Register(RegID { name: value.to_owned() }),
        }
    }
}

/// The arithmetic an operation performs.
#[derive(Debug, Clone, Copy, PartialEq, Eq)]
pub enum OpKind {
    Add,
    Subtract,
    Multiply,
}

/// `a` combined with `b` by `kind`, wrapping around at the bounds of `i32`.
pub open spec fn apply_kind(kind: OpKind, a: i32, b: i32) -> i32 {
    match kind {
        OpKind::Add => vstd::wrapping::i32_specs::wrapping_add(a, b),
        OpKind::Subtract => vstd::wrapping::i32_specs::wrapping_sub(a, b),
        OpKind::Multiply => vstd::wrapping::i32_specs::wrapping_mul(a, b),
    }
}

pub fn apply(kind: OpKind, a: i32, b: i32) -> (r: i32)
    ensures
        r == apply_kind(kind, a, b),
{
    match kind {
        OpKind::Add => a.wrapping_add(b),
        OpKind::Subtract => a.wrapping_sub(b),
        OpKind::Multiply => a.wrapping_mul(b),
    }
}

/// A deferred change to a register: its target, and the second operand.
#[derive(Debug)]
pub enum Operation {
    Add(RegID, Operand),
    Subtract(RegID, Operand),
    Multiply(RegID, Operand),
}

/// An operation as plain values.
pub struct OpModel {
    pub kind: OpKind,
    pub target: Seq<char>,
    pub operand: OperandModel,
}

impl View for Operation {
    type V = OpModel;

    open spec fn view(&self) -> OpModel {
        match self {
            Operation::Add(t, o) => OpModel { kind: OpKind::Add, target: t@, operand: o@ },
            Operation::Subtract(t, o) => OpModel {
                kind: OpKind::Subtract,
                target: t@,
                operand: o@,
            },
            Operation::Multiply(t, o) => OpModel {
                kind: OpKind::Multiply,
                target: t@,
                operand: o@,
            },
        }
    }
}

/// The kind that a verb names.
pub open spec fn kind_of(verb: Seq<char>) -> Option<OpKind> {
    if verb == "add"@ {
        Some(OpKind::Add)
    } else if verb == "subtract"@ {
        Some(OpKind::Subtract)
    } else if verb == "multiply"@ {
        Some(OpKind::Multiply)
    } else {
        None
    }
}

/// The verb as an operation kind.
pub fn parse_verb(op: &str) -> (r: Option<OpKind>)
    ensures
        r == kind_of(op@),
{
    if same_text(op, "add") {
        Some(OpKind::Add)
    } else if same_text(op, "subtract") {
        Some(OpKind::Subtract)
    } else if same_text(op, "multiply") {
        Some(OpKind::Multiply)
    } else {
        None
    }
}

impl Operation {
    pub open spec fn valid(&self) -> bool {
        &&& is_register_name(self@.target)
        &&& self@.operand matches OperandModel::Register(m) ==> is_register_name(m)
    }

    /// Builds `operand1 op operand2`: the verb is checked first, then the
    /// target's name; the second operand is a number where it reads as one.
    pub fn new(operand1: &str, op: &str, operand2: &str) -> (r: Result<Operation, ParseError>)
        ensures
            r is Ok <==> (kind_of(op@) is Some && is_register_name(operand1@)),
            r matches Ok(o) ==> o.valid() && o@ == (OpModel {
                kind: kind_of(op@)->Some_0,
                target: operand1@,
                operand: operand_of(operand2@),
            }),
            kind_of(op@) is None ==> (r matches Err(ParseError::UnknownVerb(v)) && v@ == op@),
            kind_of(op@) is Some && !is_register_name(operand1@) ==> (r matches Err(
                ParseError::InvalidRegisterName(t),
            ) && t@ == operand1@),
    {
        let kind = match parse_verb(op) {
            Some(k) => k,
            None => return Err(ParseError::UnknownVerb(op.to_owned())),
        };
        let reg = RegID::new(operand1.to_owned())?;
        let operand2 = Operand::new(operand2);
        match kind {
            OpKind::Add => Ok(Operation::Add(reg, operand2)),
            OpKind::Subtract => Ok(Operation::Subtract(reg, operand2)),
            OpKind::Multiply => Ok(Operation::Multiply(reg, operand2)),
        }
    }

    /// The register this operation changes.
    pub fn target(&self) -> (r: &RegID)
        ensures
            r@ == self@.target,
    {
        match self {
            Operation::Add(t, _) => t,
            Operation::Subtract(t, _) => t,
            Operation::Multiply(t, _) => t,
        }
    }

    pub fn kind(&self) -> (r: OpKind)
        ensures
            r == self@.kind,
    {
        match self {
            Operation::Add(_, _) => OpKind::Add,
            Operation::Subtract(_, _) => OpKind::Subtract,
            Operation::Multiply(_, _) => OpKind::Multiply,
        }
    }

    pub fn operand(&self) -> (r: &Operand)
        ensures
            r@ == self@.operand,
    {
        match self {
            Operation::Add(_, o) => o,
            Operation::Subtract(_, o) => o,
            Operation::Multiply(_, o) => o,
        }
    }
}

// ---------------------------------------------------------------------------
// Registers
// ---------------------------------------------------------------------------

/// A named cell: its value so far and the operations still to apply to it.
#[derive(Debug)]
pub struct Register {
    id: RegID,
    value: i32,
    pending_transactions: VecDeque<Operation>,
}

/// A register as plain values.
pub struct RegModel {
    pub name: Seq<char>,
    pub value: i32,
    pub queue: Seq<OpModel>,
}

impl View for Register {
    type V = RegModel;

    closed spec fn view(&self) -> RegModel {
        RegModel {
            name: self.id@,
            value: self.value,
            queue: self.pending_transactions@.map_values(|op: Operation| op@),
        }
    }
}

impl Register {
    /// Every queued operation targets this register and is well formed.
    pub closed spec fn wf(&self) -> bool {
        &&& self.id.valid()
        &&& forall|k: int|
            0 <= k < self.pending_transactions@.len() ==> {
                &&& (#[trigger] self.pending_transactions@[k]).valid()
                &&& self.pending_transactions@[k]@.target == self.id@
            }
    }

    /// A register with value 0 and nothing queued.
    pub fn new(id: RegID) -> (r: Register)
        requires
            id.valid(),
        ensures
            r.wf(),
            r@ == (RegModel { name: id@, value: 0, queue: Seq::empty() }),
    {
        let r = Register { id, value: 0, pending_transactions: VecDeque::new() };
        assert(r@.queue =~= Seq::empty());
        r
    }

    pub fn id(&self) -> (r: &RegID)
        ensures
            r@ == self@.name,
    {
        &self.id
    }

    /// Queues `operation` behind those already waiting.
    pub fn add_pending_op(&mut self, operation: Operation)
        requires
            old(self).wf(),
            operation.valid(),
            operation@.target == old(self)@.name,
        ensures
            final(self).wf(),
            final(self)@ == (RegModel { queue: old(self)@.queue.push(operation@), ..old(self)@ }),
    {
        self.pending_transactions.push_back(operation);
        assert(self@.queue =~= old(self)@.queue.push(operation@));
    }

    /// Takes the oldest queued operation off the queue.
    pub fn get_pending_op(&mut self) -> (r: Option<Operation>)
        requires
            old(self).wf(),
        ensures
            final(self).wf(),
            old(self)@.queue.len() == 0 ==> r is None && final(self)@ == old(self)@,
            old(self)@.queue.len() > 0 ==> (r matches Some(op) && op.valid() && op@ == old(
                self,
            )@.queue[0]),
            old(self)@.queue.len() > 0 ==> final(self)@ == (RegModel {
                queue: old(self)@.queue.drop_first(),
                ..old(self)@
            }),
    {
        let r = self.pending_transactions.pop_front();
        assert(self@.queue =~= old(self)@.queue.subrange(
            old(self)@.queue.len() as int - self@.queue.len() as int,
            old(self)@.queue.len() as int,
        ));
        r
    }

    /// Takes every queued operation off the queue, oldest first.
    pub fn take_pending(&mut self) -> (r: VecDeque<Operation>)
        requires
            old(self).wf(),
        ensures
            final(self).wf(),
            final(self)@ == (RegModel { queue: Seq::empty(), ..old(self)@ }),
            r@.map_values(|op: Operation| op@) == old(self)@.queue,
            forall|k: int|
                0 <= k < r@.len() ==> (#[trigger] r@[k]).valid() && r@[k]@.target == old(
                    self,
                )@.name,
    {
        let mut taken = VecDeque::new();
        std::mem::swap(&mut self.pending_transactions, &mut taken);
        assert(self@.queue =~= Seq::empty());
        taken
    }

    /// The value, once nothing is left to apply.
    pub fn get_value(&self) -> (r: i32)
        requires
            self@.queue.len() == 0,
        ensures
            r == self@.value,
    {
        self.value
    }

    /// Applies `kind` with second operand `value2` to the value.
    pub fn perform(&mut self, kind: OpKind, value2: i32)
        requires
            old(self).wf(),
        ensures
            final(self).wf(),
            final(self)@ == (RegModel {
                value: apply_kind(kind, old(self)@.value, value2),
                ..old(self)@
            }),
    {
        self.value = apply(kind, self.value, value2);
    }
}

} // verus!
