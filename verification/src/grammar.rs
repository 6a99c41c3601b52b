//! The grammar of the condition language, stated by the texts it derives,
//! and the proof that the parser reads these texts and no others.
//!
//! A text of the grammar is written down piece by piece: a name, the white
//! space before and behind the operator, the operator, the right-hand side,
//! and for each further condition the white space around its `;`. Such a
//! text has one reading, the conditions that its pieces stand for.

use vstd::prelude::*;
use crate::condition::{CompareToView, ConditionView, Op};
use crate::rule_parsing::{
    compare_to_at, condition_at, conditions_at, decimal, has_char, is_digit, is_name_char,
    is_space, lemma_run_end_bounds, lemma_run_holds, more_conditions_at, operator_at,
    rule_conditions, run_end, separator_at, state_name_at, CharClass, Mismatch,
};

verus! {

/// Every character of the text is of the class.
pub open spec fn is_run(text: Seq<char>, class: CharClass) -> bool {
    forall|i: int| 0 <= i < text.len() ==> class.has(#[trigger] text[i])
}

/// The text of an operator.
pub open spec fn op_text(op: Op) -> Seq<char> {
    match op {
        Op::Eq => seq!['=', '='],
        Op::Ge => seq!['>', '='],
        Op::Le => seq!['<', '='],
        Op::Ne => seq!['!', '='],
        Op::Gt => seq!['>'],
        Op::Lt => seq!['<'],
    }
}

/// A state reference as it is written: `$` and the name.
pub open spec fn reference_text(name: Seq<char>) -> Seq<char> {
    seq!['$'] + name
}

/// A name is one character of a name or more.
pub open spec fn is_name(name: Seq<char>) -> bool {
    name.len() > 0 && is_run(name, CharClass::Name)
}

/// A right-hand side as it is written.
pub ghost enum OperandText {
    /// A state reference, by its name.
    Reference(Seq<char>),
    /// A number, by its digits.
    Number(Seq<char>),
}

impl OperandText {
    /// The right-hand side is one of the grammar: a name, or digits that
    /// write a number that a count can be.
    pub open spec fn is_valid(self) -> bool {
        match self {
            OperandText::Reference(name) => is_name(name),
            OperandText::Number(digits) => digits.len() > 0 && is_run(digits, CharClass::Digit)
                && decimal(digits) <= usize::MAX,
        }
    }

    /// The right-hand side as text.
    pub open spec fn text(self) -> Seq<char> {
        match self {
            OperandText::Reference(name) => reference_text(name),
            OperandText::Number(digits) => digits,
        }
    }

    /// What the right-hand side stands for.
    pub open spec fn value(self) -> CompareToView {
        match self {
            OperandText::Reference(name) => CompareToView::State(name),
            OperandText::Number(digits) => CompareToView::Value(decimal(digits) as usize),
        }
    }
}

/// A condition as it is written.
pub ghost struct ConditionText {
    pub name: Seq<char>,
    pub before_op: Seq<char>,
    pub op: Op,
    pub after_op: Seq<char>,
    pub operand: OperandText,
}

impl ConditionText {
    /// The condition is one of the grammar: a name, white space, and a
    /// right-hand side of the grammar.
    pub open spec fn is_valid(self) -> bool {
        &&& is_name(self.name)
        &&& is_run(self.before_op, CharClass::Space)
        &&& is_run(self.after_op, CharClass::Space)
        &&& self.operand.is_valid()
    }

    /// The condition as text: the state reference, the operator with the
    /// white space around it, and the right-hand side.
    pub open spec fn text(self) -> Seq<char> {
        reference_text(self.name) + self.before_op + op_text(self.op) + self.after_op
            + self.operand.text()
    }

    /// What the condition stands for.
    pub open spec fn value(self) -> ConditionView {
        ConditionView { state: self.name, op: self.op, compare_to: self.operand.value() }
    }
}

/// A further condition as it is written: white space, `;`, white space, and
/// the condition.
pub ghost struct FollowingText {
    pub before: Seq<char>,
    pub after: Seq<char>,
    pub condition: ConditionText,
}

impl FollowingText {
    /// The white space is white space, and the condition is one of the grammar.
    pub open spec fn is_valid(self) -> bool {
        &&& is_run(self.before, CharClass::Space)
        &&& is_run(self.after, CharClass::Space)
        &&& self.condition.is_valid()
    }

    /// The further condition as text.
    pub open spec fn text(self) -> Seq<char> {
        self.before + seq![';'] + self.after + self.condition.text()
    }
}

/// The text of the further conditions, one behind the other.
pub open spec fn following_text(more: Seq<FollowingText>) -> Seq<char>
    decreases more.len(),
{
    if more.len() == 0 {
        Seq::empty()
    } else {
        more[0].text() + following_text(more.drop_first())
    }
}

/// What the further conditions stand for.
pub open spec fn following_values(more: Seq<FollowingText>) -> Seq<ConditionView> {
    Seq::new(more.len(), |i: int| more[i].condition.value())
}

/// A rule as it is written: a condition, and the further conditions.
pub ghost struct RuleText {
    pub first: ConditionText,
    pub more: Seq<FollowingText>,
}

impl RuleText {
    /// The rule is one of the grammar.
    pub open spec fn is_valid(self) -> bool {
        &&& self.first.is_valid()
        &&& forall|i: int| 0 <= i < self.more.len() ==> (#[trigger] self.more[i]).is_valid()
    }

    /// The rule as text.
    pub open spec fn text(self) -> Seq<char> {
        self.first.text() + following_text(self.more)
    }

    /// The conditions that the rule stands for, in the order in which it
    /// writes them.
    pub open spec fn value(self) -> Seq<ConditionView> {
        seq![self.first.value()] + following_values(self.more)
    }
}

/// The piece `piece` stands in `s` at position `i`.
pub open spec fn stands_at(s: Seq<char>, i: int, piece: Seq<char>) -> bool {
    &&& 0 <= i
    &&& i + piece.len() <= s.len()
    &&& forall|k: int| 0 <= k < piece.len() ==> s[i + k] == #[trigger] piece[k]
}

/// The character at position `i` ends a name: the text ends there, or the
/// character is none of a name.
pub open spec fn ends_name(s: Seq<char>, i: int) -> bool {
    i == s.len() || (0 <= i < s.len() && !is_name_char(s[i]))
}

/// The character at position `i` ends a condition: the text ends there, or
/// white space or a `;` stands there.
pub open spec fn ends_condition(s: Seq<char>, i: int) -> bool {
    i == s.len() || (0 <= i < s.len() && (is_space(s[i]) || s[i] == ';'))
}

/// Where two pieces stand one behind the other, each stands at its place.
proof fn lemma_stands_split(s: Seq<char>, i: int, a: Seq<char>, b: Seq<char>)
    requires
        stands_at(s, i, a + b),
    ensures
        stands_at(s, i, a),
        stands_at(s, i + a.len(), b),
{
    let whole = a + b;
    assert forall|k: int| 0 <= k < a.len() implies s[i + k] == #[trigger] a[k] by {
        assert(whole[k] == a[k]);
    }
    assert forall|k: int| 0 <= k < b.len() implies s[i + a.len() + k] == #[trigger] b[k] by {
        assert(whole[a.len() + k] == b[k]);
    }
}

/// Two pieces that stand one behind the other stand there as one.
proof fn lemma_stands_join(s: Seq<char>, i: int, a: Seq<char>, b: Seq<char>)
    requires
        stands_at(s, i, a),
        stands_at(s, i + a.len(), b),
    ensures
        stands_at(s, i, a + b),
{
    let whole = a + b;
    assert forall|k: int| 0 <= k < whole.len() implies s[i + k] == #[trigger] whole[k] by {
        if k < a.len() {
            assert(whole[k] == a[k]);
        } else {
            assert(whole[k] == b[k - a.len()]);
            assert(s[i + a.len() + (k - a.len())] == b[k - a.len()]);
        }
    }
}

/// A piece of `s` stands where it was taken from.
proof fn lemma_stands_subrange(s: Seq<char>, i: int, j: int)
    requires
        0 <= i <= j <= s.len(),
    ensures
        stands_at(s, i, s.subrange(i, j)),
{
}

/// A piece that stands in `s` from `i` to `j` is that part of `s`.
proof fn lemma_stands_is_subrange(s: Seq<char>, i: int, piece: Seq<char>)
    requires
        stands_at(s, i, piece),
    ensures
        s.subrange(i, i + piece.len()) == piece,
{
    assert(s.subrange(i, i + piece.len()) =~= piece);
}

/// A run of a class that stands at `start`, and that a character of
/// another class or the end of the text follows, is the run that the
/// parser reads there.
proof fn lemma_run_end_is(s: Seq<char>, start: int, piece: Seq<char>, class: CharClass)
    requires
        stands_at(s, start, piece),
        is_run(piece, class),
        start + piece.len() == s.len() || !class.has(s[start + piece.len()]),
    ensures
        run_end(s, start, class) == start + piece.len(),
    decreases piece.len(),
{
    if piece.len() > 0 {
        assert(s[start + 0] == piece[0]);
        let rest = piece.drop_first();
        assert forall|k: int| 0 <= k < rest.len() implies s[start + 1 + k] == #[trigger] rest[k] by {
            assert(rest[k] == piece[k + 1]);
            assert(s[start + (k + 1)] == piece[k + 1]);
        }
        assert forall|k: int| 0 <= k < rest.len() implies class.has(#[trigger] rest[k]) by {
            assert(rest[k] == piece[k + 1]);
        }
        lemma_run_end_is(s, start + 1, rest, class);
    }
}

/// The parser reads a state reference that stands at `i`.
proof fn lemma_reference_parses(s: Seq<char>, i: int, name: Seq<char>)
    requires
        is_name(name),
        stands_at(s, i, reference_text(name)),
        ends_name(s, i + 1 + name.len()),
    ensures
        state_name_at(s, i) == Ok::<(int, Seq<char>), Mismatch>((i + 1 + name.len(), name)),
{
    lemma_stands_split(s, i, seq!['$'], name);
    assert(s[i + 0] == seq!['$'][0]);
    lemma_run_end_is(s, i + 1, name, CharClass::Name);
    lemma_stands_is_subrange(s, i + 1, name);
}

/// The parser reads an operator that stands at `i`, where what follows it
/// is no `=`.
proof fn lemma_operator_parses(s: Seq<char>, i: int, op: Op)
    requires
        stands_at(s, i, op_text(op)),
        !has_char(s, i + op_text(op).len(), '='),
    ensures
        operator_at(s, i) == Ok::<(int, Op), Mismatch>((i + op_text(op).len(), op)),
{
    let text = op_text(op);
    assert(s[i + 0] == text[0]);
    if text.len() == 2 {
        assert(s[i + 1] == text[1]);
    }
}

/// The parser reads a right-hand side that stands at `i`.
proof fn lemma_operand_parses(s: Seq<char>, i: int, operand: OperandText)
    requires
        operand.is_valid(),
        stands_at(s, i, operand.text()),
        ends_condition(s, i + operand.text().len()),
    ensures
        compare_to_at(s, i) == Ok::<(int, CompareToView), Mismatch>(
            (i + operand.text().len(), operand.value()),
        ),
{
    match operand {
        OperandText::Reference(name) => {
            assert(s[i + 0] == reference_text(name)[0]);
            lemma_reference_parses(s, i, name);
        },
        OperandText::Number(digits) => {
            assert(s[i + 0] == digits[0]);
            assert(is_digit(digits[0]));
            lemma_run_end_is(s, i, digits, CharClass::Digit);
            lemma_stands_is_subrange(s, i, digits);
        },
    }
}

/// The parser reads a condition that stands at `i`.
proof fn lemma_condition_parses(s: Seq<char>, i: int, condition: ConditionText)
    requires
        condition.is_valid(),
        stands_at(s, i, condition.text()),
        ends_condition(s, i + condition.text().len()),
    ensures
        condition_at(s, i) == Ok::<(int, ConditionView), Mismatch>(
            (i + condition.text().len(), condition.value()),
        ),
{
    let reference = reference_text(condition.name);
    let operator = op_text(condition.op);
    let operand = condition.operand.text();
    let name_end = i + reference.len();
    let op_start = name_end + condition.before_op.len();
    let op_end = op_start + operator.len();
    let operand_start = op_end + condition.after_op.len();
    lemma_stands_split(
        s,
        i,
        reference + condition.before_op + operator + condition.after_op,
        operand,
    );
    lemma_stands_split(s, i, reference + condition.before_op + operator, condition.after_op);
    lemma_stands_split(s, i, reference + condition.before_op, operator);
    lemma_stands_split(s, i, reference, condition.before_op);
    assert(s[op_start + 0] == operator[0]);
    assert(s[operand_start + 0] == operand[0]);
    assert(operand.len() > 0);
    // What follows the operator is white space or the right-hand side.
    let after_operator = s[op_end];
    assert(after_operator != '=') by {
        if condition.after_op.len() > 0 {
            assert(s[op_end + 0] == condition.after_op[0]);
            assert(is_space(condition.after_op[0]));
        } else {
            match condition.operand {
                OperandText::Reference(name) => {
                    assert(operand[0] == '$');
                },
                OperandText::Number(digits) => {
                    assert(is_digit(digits[0]));
                },
            }
        }
    }
    // What follows the name is white space or the operator.
    assert(ends_name(s, name_end)) by {
        if condition.before_op.len() > 0 {
            assert(s[name_end + 0] == condition.before_op[0]);
            assert(is_space(condition.before_op[0]));
        }
    }
    lemma_reference_parses(s, i, condition.name);
    lemma_run_end_is(s, name_end, condition.before_op, CharClass::Space);
    lemma_operator_parses(s, op_start, condition.op);
    assert(!is_space(s[operand_start])) by {
        match condition.operand {
            OperandText::Reference(name) => {
                assert(operand[0] == '$');
            },
            OperandText::Number(digits) => {
                assert(is_digit(digits[0]));
            },
        }
    }
    lemma_run_end_is(s, op_end, condition.after_op, CharClass::Space);
    lemma_operand_parses(s, operand_start, condition.operand);
}

/// The parser reads the further conditions that stand at `i` and reach to
/// the end of the text.
proof fn lemma_following_parse(s: Seq<char>, i: int, more: Seq<FollowingText>)
    requires
        forall|k: int| 0 <= k < more.len() ==> (#[trigger] more[k]).is_valid(),
        stands_at(s, i, following_text(more)),
        i + following_text(more).len() == s.len(),
    ensures
        more_conditions_at(s, i) == (s.len() as int, following_values(more)),
    decreases more.len(),
{
    if more.len() == 0 {
        assert(run_end(s, i, CharClass::Space) == i);
        assert(following_values(more) =~= Seq::<ConditionView>::empty());
    } else {
        let head = more[0];
        let tail = more.drop_first();
        assert(head.is_valid());
        lemma_stands_split(s, i, head.text(), following_text(tail));
        let semicolon = i + head.before.len();
        let after = semicolon + 1;
        let start = after + head.after.len();
        let end = start + head.condition.text().len();
        lemma_stands_split(s, i, head.before + seq![';'] + head.after, head.condition.text());
        lemma_stands_split(s, i, head.before + seq![';'], head.after);
        lemma_stands_split(s, i, head.before, seq![';']);
        assert(s[semicolon + 0] == seq![';'][0]);
        lemma_run_end_is(s, i, head.before, CharClass::Space);
        assert(head.condition.text().len() > 0);
        assert(s[start + 0] == head.condition.text()[0]);
        assert(head.condition.text()[0] == '$');
        lemma_run_end_is(s, after, head.after, CharClass::Space);
        assert(separator_at(s, i) == Some(start));
        assert(ends_condition(s, end)) by {
            lemma_following_starts(tail);
            if tail.len() > 0 {
                assert(s[end + 0] == following_text(tail)[0]);
            }
        }
        lemma_condition_parses(s, start, head.condition);
        assert forall|k: int| 0 <= k < tail.len() implies (#[trigger] tail[k]).is_valid() by {
            assert(tail[k] == more[k + 1]);
        }
        lemma_following_parse(s, end, tail);
        assert(seq![head.condition.value()] + following_values(tail) =~= following_values(more));
    }
}

/// The text of further conditions is empty, or begins with white space or
/// with a `;`.
proof fn lemma_following_starts(more: Seq<FollowingText>)
    requires
        forall|k: int| 0 <= k < more.len() ==> (#[trigger] more[k]).is_valid(),
    ensures
        more.len() == 0 ==> following_text(more).len() == 0,
        more.len() > 0 ==> following_text(more).len() > 0 && (is_space(following_text(more)[0])
            || following_text(more)[0] == ';'),
{
    if more.len() > 0 {
        let head = more[0];
        assert(head.is_valid());
        let text = following_text(more);
        if head.before.len() > 0 {
            assert(text[0] == head.before[0]);
            assert(is_space(head.before[0]));
        } else {
            assert(text[0] == ';');
        }
    }
}

/// The parser reads a condition and the further conditions behind it, which
/// stand at `i` and reach to the end of the text.
proof fn lemma_conditions_parse(s: Seq<char>, i: int, first: ConditionText, more: Seq<FollowingText>)
    requires
        first.is_valid(),
        forall|k: int| 0 <= k < more.len() ==> (#[trigger] more[k]).is_valid(),
        stands_at(s, i, first.text()),
        stands_at(s, i + first.text().len(), following_text(more)),
        i + first.text().len() + following_text(more).len() == s.len(),
    ensures
        conditions_at(s, i) == Ok::<(int, Seq<ConditionView>), Mismatch>(
            (s.len() as int, seq![first.value()] + following_values(more)),
        ),
{
    let end = i + first.text().len();
    assert(ends_condition(s, end)) by {
        lemma_following_starts(more);
        if more.len() > 0 {
            assert(s[end + 0] == following_text(more)[0]);
        }
    }
    lemma_condition_parses(s, i, first);
    lemma_following_parse(s, end, more);
}

/// Every text of the grammar parses, and to the conditions that it stands
/// for: their names, operators and right-hand sides, in the order in which
/// the text writes them.
pub proof fn lemma_grammar_parses(rule: RuleText)
    requires
        rule.is_valid(),
    ensures
        rule_conditions(rule.text()) == Ok::<Seq<ConditionView>, Mismatch>(rule.value()),
{
    let s = rule.text();
    let first = rule.first.text();
    let rest = following_text(rule.more);
    assert(stands_at(s, 0, first + rest));
    lemma_stands_split(s, 0, first, rest);
    lemma_conditions_parse(s, 0, rule.first, rule.more);
}

/// A state reference that the parser reads at `i` is one of the grammar.
proof fn lemma_reference_read(s: Seq<char>, i: int)
    requires
        0 <= i <= s.len(),
        state_name_at(s, i) is Ok,
    ensures
        ({
            let (end, name) = state_name_at(s, i)->Ok_0;
            &&& is_name(name)
            &&& stands_at(s, i, reference_text(name))
            &&& end == i + 1 + name.len()
        }),
{
    lemma_run_end_bounds(s, i + 1, CharClass::Name);
    lemma_run_holds(s, i + 1, CharClass::Name);
    let (end, name) = state_name_at(s, i)->Ok_0;
    assert(name.len() == end - (i + 1));
    assert forall|k: int| 0 <= k < name.len() implies CharClass::Name.has(#[trigger] name[k]) by {
        assert(name[k] == s[i + 1 + k]);
    }
    lemma_stands_subrange(s, i + 1, end);
    assert(stands_at(s, i, seq!['$']));
    lemma_stands_join(s, i, seq!['$'], name);
}

/// An operator that the parser reads at `i` is one of the grammar.
proof fn lemma_operator_read(s: Seq<char>, i: int)
    requires
        operator_at(s, i) is Ok,
    ensures
        ({
            let (end, op) = operator_at(s, i)->Ok_0;
            &&& stands_at(s, i, op_text(op))
            &&& end == i + op_text(op).len()
        }),
{
}

/// A right-hand side that the parser reads at `i` is one of the grammar.
proof fn lemma_operand_read(s: Seq<char>, i: int) -> (operand: OperandText)
    requires
        0 <= i <= s.len(),
        compare_to_at(s, i) is Ok,
    ensures
        operand.is_valid(),
        stands_at(s, i, operand.text()),
        compare_to_at(s, i) == Ok::<(int, CompareToView), Mismatch>(
            (i + operand.text().len(), operand.value()),
        ),
{
    if has_char(s, i, '$') {
        lemma_reference_read(s, i);
        OperandText::Reference(state_name_at(s, i)->Ok_0.1)
    } else {
        let end = run_end(s, i, CharClass::Digit);
        lemma_run_end_bounds(s, i, CharClass::Digit);
        lemma_run_holds(s, i, CharClass::Digit);
        let digits = s.subrange(i, end);
        assert forall|k: int| 0 <= k < digits.len() implies CharClass::Digit.has(
            #[trigger] digits[k],
        ) by {
            assert(digits[k] == s[i + k]);
        }
        lemma_stands_subrange(s, i, end);
        OperandText::Number(digits)
    }
}

/// The white space that the parser skips at `i` is white space.
proof fn lemma_space_read(s: Seq<char>, i: int) -> (space: Seq<char>)
    requires
        0 <= i <= s.len(),
    ensures
        is_run(space, CharClass::Space),
        stands_at(s, i, space),
        run_end(s, i, CharClass::Space) == i + space.len(),
{
    let end = run_end(s, i, CharClass::Space);
    lemma_run_end_bounds(s, i, CharClass::Space);
    lemma_run_holds(s, i, CharClass::Space);
    let space = s.subrange(i, end);
    assert forall|k: int| 0 <= k < space.len() implies CharClass::Space.has(#[trigger] space[k]) by {
        assert(space[k] == s[i + k]);
    }
    lemma_stands_subrange(s, i, end);
    space
}

/// A condition that the parser reads at `i` is one of the grammar.
proof fn lemma_condition_read(s: Seq<char>, i: int) -> (condition: ConditionText)
    requires
        0 <= i <= s.len(),
        condition_at(s, i) is Ok,
    ensures
        condition.is_valid(),
        stands_at(s, i, condition.text()),
        condition_at(s, i) == Ok::<(int, ConditionView), Mismatch>(
            (i + condition.text().len(), condition.value()),
        ),
{
    lemma_reference_read(s, i);
    let (name_end, name) = state_name_at(s, i)->Ok_0;
    let before_op = lemma_space_read(s, name_end);
    let op_start = name_end + before_op.len();
    lemma_operator_read(s, op_start);
    let (op_end, op) = operator_at(s, op_start)->Ok_0;
    let after_op = lemma_space_read(s, op_end);
    let operand_start = op_end + after_op.len();
    let operand = lemma_operand_read(s, operand_start);
    let condition = ConditionText { name, before_op, op, after_op, operand };
    lemma_stands_join(s, i, reference_text(name), before_op);
    lemma_stands_join(s, i, reference_text(name) + before_op, op_text(op));
    lemma_stands_join(s, i, reference_text(name) + before_op + op_text(op), after_op);
    lemma_stands_join(
        s,
        i,
        reference_text(name) + before_op + op_text(op) + after_op,
        operand.text(),
    );
    condition
}

/// The further conditions that the parser reads at `i` are of the grammar.
proof fn lemma_following_read(s: Seq<char>, i: int) -> (more: Seq<FollowingText>)
    requires
        0 <= i <= s.len(),
    ensures
        forall|k: int| 0 <= k < more.len() ==> (#[trigger] more[k]).is_valid(),
        stands_at(s, i, following_text(more)),
        more_conditions_at(s, i) == (i + following_text(more).len(), following_values(more)),
    decreases s.len() - i,
{
    let nothing = Seq::<FollowingText>::empty();
    assert(following_values(nothing) =~= Seq::<ConditionView>::empty());
    match separator_at(s, i) {
        None => nothing,
        Some(start) => {
            let before = lemma_space_read(s, i);
            let semicolon = i + before.len();
            let after = lemma_space_read(s, semicolon + 1);
            match condition_at(s, start) {
                Err(_) => nothing,
                Ok((end, _)) => {
                    let condition = lemma_condition_read(s, start);
                    if i < end <= s.len() {
                        let tail = lemma_following_read(s, end);
                        let head = FollowingText { before, after, condition };
                        let more = seq![head] + tail;
                        assert(more[0] == head);
                        assert(more.drop_first() =~= tail);
                        assert(stands_at(s, semicolon, seq![';']));
                        lemma_stands_join(s, i, before, seq![';']);
                        lemma_stands_join(s, i, before + seq![';'], after);
                        lemma_stands_join(s, i, before + seq![';'] + after, condition.text());
                        lemma_stands_join(s, i, head.text(), following_text(tail));
                        assert forall|k: int| 0 <= k < more.len() implies (
                        #[trigger] more[k]).is_valid() by {
                            if k > 0 {
                                assert(more[k] == tail[k - 1]);
                            }
                        }
                        assert(following_values(more) =~= seq![condition.value()]
                            + following_values(tail));
                        more
                    } else {
                        nothing
                    }
                },
            }
        },
    }
}

/// Every text that parses is a text of the grammar, and parses to the
/// conditions that it stands for.
pub proof fn lemma_parsed_text_is_of_grammar(s: Seq<char>) -> (rule: RuleText)
    requires
        rule_conditions(s) is Ok,
    ensures
        rule.is_valid(),
        rule.text() == s,
        rule.value() == rule_conditions(s)->Ok_0,
{
    let first = lemma_condition_read(s, 0);
    let end = first.text().len() as int;
    let more = lemma_following_read(s, end);
    let rule = RuleText { first, more };
    lemma_stands_join(s, 0, first.text(), following_text(more));
    assert(rule.text() =~= s);
    rule
}

/// A text that is none of the grammar does not parse.
pub proof fn lemma_other_text_fails(s: Seq<char>)
    requires
        forall|rule: RuleText| rule.is_valid() ==> #[trigger] rule.text() != s,
    ensures
        rule_conditions(s) is Err,
{
    if rule_conditions(s) is Ok {
        let rule = lemma_parsed_text_is_of_grammar(s);
        assert(rule.text() == s);
    }
}

/// A text of the grammar has one reading: two ways of writing it down
/// piece by piece stand for the same conditions.
pub proof fn lemma_one_reading(one: RuleText, other: RuleText)
    requires
        one.is_valid(),
        other.is_valid(),
        one.text() == other.text(),
    ensures
        one.value() == other.value(),
{
    lemma_grammar_parses(one);
    lemma_grammar_parses(other);
}

} // verus!
