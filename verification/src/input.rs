use vstd::prelude::*;

use crate::cards::BlackjackAction;

verus! {

/// A character with an ASCII upper-case letter turned into lower case.
pub open spec fn ascii_lower(c: char) -> char {
    if 'A' <= c <= 'Z' {
        ((c as int) + 32) as char
    } else {
        c
    }
}

/// The answer that a key gives to a yes-or-no question, if any.
pub open spec fn spec_bool_key_answer(key: char) -> Option<bool> {
    if ascii_lower(key) == 'y' {
        Some(true)
    } else if ascii_lower(key) == 'n' {
        Some(false)
    } else {
        None
    }
}

/// Reads a key as an answer to a yes-or-no question: `y` or `n`, in either case.
pub fn bool_key_answer(key: char) -> (answer: Option<bool>)
    ensures
        answer == spec_bool_key_answer(key),
{
    if key == 'y' || key == 'Y' {
        Some(true)
    } else if key == 'n' || key == 'N' {
        Some(false)
    } else {
        None
    }
}

/// The action that a key picks, if it picks one that is offered.
pub open spec fn spec_action_for_key(key: char, can_split: bool, can_double_down: bool) -> Option<
    BlackjackAction,
> {
    let k = ascii_lower(key);
    if k == 'h' {
        Some(BlackjackAction::Hit)
    } else if k == 's' {
        Some(BlackjackAction::Stand)
    } else if k == 'x' && can_split {
        Some(BlackjackAction::Split)
    } else if k == 'd' && can_double_down {
        Some(BlackjackAction::DoubleDown)
    } else {
        None
    }
}

/// Reads a key as the player's action: `h` hits, `s` stands, `x` splits when
/// a split is offered and `d` doubles down when that is offered, in either case.
pub fn action_for_key(key: char, can_split: bool, can_double_down: bool) -> (action: Option<
    BlackjackAction,
>)
    ensures
        action == spec_action_for_key(key, can_split, can_double_down),
{
    if key == 'h' || key == 'H' {
        Some(BlackjackAction::Hit)
    } else if key == 's' || key == 'S' {
        Some(BlackjackAction::Stand)
    } else if (key == 'x' || key == 'X') && can_split {
        Some(BlackjackAction::Split)
    } else if (key == 'd' || key == 'D') && can_double_down {
        Some(BlackjackAction::DoubleDown)
    } else {
        None
    }
}

/// A key pressed while a number is typed in.
#[derive(Debug, Clone, Copy, PartialEq, Eq, Structural)]
pub enum InputKey {
    Char(char),
    Backspace,
    Enter,
    Other,
}

/// What the number entry asks to be shown or done after a key.
#[derive(Debug, Clone, Copy, PartialEq, Eq, Structural)]
pub enum NumberInputStep {
    /// A digit was added: echo it.
    Typed(char),
    /// The last digit was erased: show the prompt and the digits again.
    Erased,
    /// The key does nothing.
    Ignored,
    /// The number is entered.
    Entered(u32),
    /// Enter on an empty entry: the default is taken.
    UseDefault,
    /// The digits are too large for a number: say so and keep them.
    Invalid,
}

pub open spec fn is_digit(c: char) -> bool {
    '0' <= c <= '9'
}

/// The number that a string of decimal digits stands for.
pub open spec fn digits_value(s: Seq<char>) -> nat
    decreases s.len(),
{
    if s.len() == 0 {
        0
    } else {
        digits_value(s.drop_last()) * 10 + ((s.last() as int) - 48) as nat
    }
}

/// The digits typed so far of a number being entered.
pub struct NumberEntry {
    digits: Vec<char>,
}

impl View for NumberEntry {
    type V = Seq<char>;

    closed spec fn view(&self) -> Seq<char> {
        self.digits@
    }
}

/// The entry after a key, and what it asks for.
pub open spec fn number_step(entry: Seq<char>, key: InputKey) -> (Seq<char>, NumberInputStep) {
    match key {
        InputKey::Char(c) => if is_digit(c) {
            (entry.push(c), NumberInputStep::Typed(c))
        } else {
            (entry, NumberInputStep::Ignored)
        },
        InputKey::Backspace => (
            if entry.len() > 0 { entry.drop_last() } else { entry },
            NumberInputStep::Erased,
        ),
        InputKey::Enter => if entry.len() == 0 {
            (entry, NumberInputStep::UseDefault)
        } else if digits_value(entry) <= u32::MAX {
            (entry, NumberInputStep::Entered(digits_value(entry) as u32))
        } else {
            (entry, NumberInputStep::Invalid)
        },
        InputKey::Other => (entry, NumberInputStep::Ignored),
    }
}

impl NumberEntry {
    /// A well-formed entry holds decimal digits only.
    pub closed spec fn wf(self) -> bool {
        forall|i: int| 0 <= i < self.digits@.len() ==> is_digit(#[trigger] self.digits@[i])
    }

    /// A well-formed entry holds decimal digits only.
    pub proof fn lemma_wf_only_digits(self)
        requires
            self.wf(),
        ensures
            forall|i: int| 0 <= i < self@.len() ==> is_digit(#[trigger] self@[i]),
    {
    }

    /// A new, empty entry.
    pub fn new() -> (entry: NumberEntry)
        ensures
            entry.wf(),
            entry@ == Seq::<char>::empty(),
    {
        NumberEntry { digits: Vec::new() }
    }

    /// The digits typed so far.
    pub fn text(&self) -> (s: String)
        ensures
            s@ == self@,
    {
        let mut s = String::new();
        let mut i: usize = 0;
        while i < self.digits.len()
            invariant
                i <= self.digits@.len(),
                s@ == self.digits@.take(i as int),
            decreases self.digits@.len() - i,
        {
            crate::text::push_char(&mut s, self.digits[i]);
            proof {
                assert(self.digits@.take(i + 1) =~= self.digits@.take(i as int).push(
                    self.digits@[i as int],
                ));
            }
            i = i + 1;
        }
        proof {
            assert(self.digits@.take(self.digits@.len() as int) =~= self.digits@);
        }
        s
    }

    /// Reads the typed digits as a number, if it fits a `u32`.
    fn value(&self) -> (v: Option<u32>)
        requires
            self.wf(),
        ensures
            digits_value(self@) <= u32::MAX ==> v == Some(digits_value(self@) as u32),
            digits_value(self@) > u32::MAX ==> v is None,
    {
        let mut acc: u32 = 0;
        let mut i: usize = 0;
        while i < self.digits.len()
            invariant
                i <= self.digits@.len(),
                forall|j: int| 0 <= j < self.digits@.len() ==> is_digit(#[trigger] self.digits@[j]),
                acc == digits_value(self.digits@.take(i as int)),
            decreases self.digits@.len() - i,
        {
            let c = self.digits[i];
            let d = (c as u32) - 48;
            proof {
                assert(self.digits@.take(i + 1).drop_last() =~= self.digits@.take(i as int));
            }
            match acc.checked_mul(10) {
                Some(t) => match t.checked_add(d) {
                    Some(next) => {
                        acc = next;
                    },
                    None => {
                        proof {
                            lemma_digits_value_prefix(self.digits@, i + 1);
                        }
                        return None;
                    },
                },
                None => {
                    proof {
                        lemma_digits_value_prefix(self.digits@, i + 1);
                    }
                    return None;
                },
            }
            i = i + 1;
        }
        proof {
            assert(self.digits@.take(self.digits@.len() as int) =~= self.digits@);
        }
        Some(acc)
    }

    /// Takes one key: a digit is added, backspace erases the last digit, and
    /// enter gives the number, or asks for the default when nothing is typed.
    pub fn step(&mut self, key: InputKey) -> (step: NumberInputStep)
        requires
            old(self).wf(),
        ensures
            final(self).wf(),
            (final(self)@, step) == number_step(old(self)@, key),
    {
        match key {
            InputKey::Char(c) => {
                if '0' <= c && c <= '9' {
                    self.digits.push(c);
                    NumberInputStep::Typed(c)
                } else {
                    NumberInputStep::Ignored
                }
            },
            InputKey::Backspace => {
                let _ = self.digits.pop();
                NumberInputStep::Erased
            },
            InputKey::Enter => {
                if self.digits.len() == 0 {
                    NumberInputStep::UseDefault
                } else {
                    match self.value() {
                        Some(n) => NumberInputStep::Entered(n),
                        None => NumberInputStep::Invalid,
                    }
                }
            },
            InputKey::Other => NumberInputStep::Ignored,
        }
    }
}

/// A longer string of digits stands for a number at least as large.
proof fn lemma_digits_value_prefix(s: Seq<char>, i: int)
    requires
        0 <= i <= s.len(),
        forall|j: int| 0 <= j < s.len() ==> is_digit(#[trigger] s[j]),
    ensures
        digits_value(s.take(i)) <= digits_value(s),
    decreases s.len(),
{
    if i < s.len() {
        assert(s.drop_last().take(i) =~= s.take(i));
        lemma_digits_value_prefix(s.drop_last(), i);
    } else {
        assert(s.take(i) =~= s);
    }
}

} // verus!

verus! {

/// The digits typed by a sequence of keys: each digit is added, each
/// backspace removes the last digit (if any), every other key changes nothing.
pub open spec fn typed(keys: Seq<InputKey>) -> Seq<char>
    decreases keys.len(),
{
    if keys.len() == 0 {
        Seq::empty()
    } else {
        let before = typed(keys.drop_last());
        match keys.last() {
            InputKey::Char(c) => if is_digit(c) { before.push(c) } else { before },
            InputKey::Backspace => if before.len() > 0 { before.drop_last() } else { before },
            _ => before,
        }
    }
}

/// The entry after a new entry has taken every key of the sequence in turn.
pub open spec fn entry_after(keys: Seq<InputKey>) -> Seq<char>
    decreases keys.len(),
{
    if keys.len() == 0 {
        Seq::empty()
    } else {
        number_step(entry_after(keys.drop_last()), keys.last()).0
    }
}

/// An enter that ends the entry: nothing typed, or a number that fits.
pub open spec fn ends_entry(keys: Seq<InputKey>, i: int) -> bool {
    &&& keys[i] is Enter
    &&& (typed(keys.take(i)).len() == 0 || digits_value(typed(keys.take(i))) <= u32::MAX)
}

/// The number that a sequence of keys gives: the first enter that ends the
/// entry gives the default when nothing is typed, else the typed number;
/// without such an enter, the keys give nothing yet.
pub open spec fn keys_result(keys: Seq<InputKey>, default: u32) -> Option<u32>
    decreases keys.len(),
{
    if keys.len() == 0 {
        None
    } else {
        match keys_result(keys.drop_last(), default) {
            Some(r) => Some(r),
            None => match number_step(entry_after(keys.drop_last()), keys.last()).1 {
                NumberInputStep::Entered(n) => Some(n),
                NumberInputStep::UseDefault => Some(default),
                _ => None,
            },
        }
    }
}

/// Taking keys one by one, the entry holds exactly the digits typed; the
/// entry ends at the first enter with nothing typed (giving the default) or
/// with digits that fit a `u32` (giving their number), and an enter on digits
/// too large for a `u32` keeps them and goes on.
pub proof fn lemma_keys_result(keys: Seq<InputKey>, default: u32)
    ensures
        entry_after(keys) == typed(keys),
        keys_result(keys, default) matches Some(r) ==> exists|i: int|
            0 <= i < keys.len() && #[trigger] ends_entry(keys, i) && (forall|j: int|
                0 <= j < i ==> !ends_entry(keys, j)) && r == if typed(keys.take(i)).len() == 0 {
                default
            } else {
                digits_value(typed(keys.take(i))) as u32
            },
        keys_result(keys, default) is None ==> forall|j: int|
            0 <= j < keys.len() ==> !#[trigger] ends_entry(keys, j),
    decreases keys.len(),
{
    if keys.len() > 0 {
        let pre = keys.drop_last();
        let i = keys.len() - 1;
        lemma_keys_result(pre, default);
        assert(keys.take(i) =~= pre);
        assert forall|j: int| 0 <= j < i implies ends_entry(keys, j) == ends_entry(pre, j) by {
            assert(keys.take(j) =~= pre.take(j));
        }
        if keys_result(pre, default) is None {
            if keys_result(keys, default) is Some {
                assert(ends_entry(keys, i));
            }
        } else {
            let r = keys_result(pre, default).unwrap();
            let w = choose|w: int|
                0 <= w < pre.len() && #[trigger] ends_entry(pre, w) && (forall|j: int|
                    0 <= j < w ==> !ends_entry(pre, j)) && r == if typed(pre.take(w)).len() == 0 {
                    default
                } else {
                    digits_value(typed(pre.take(w))) as u32
                };
            assert(ends_entry(keys, w));
            assert(keys.take(w) =~= pre.take(w));
        }
    }
}

} // verus!

verus! {

/// The action keys, in either case: `h` hits and `s` stands whatever is
/// offered; `x` splits only when a split is offered and `d` doubles down only
/// when that is offered; every other key picks nothing. A letter and its
/// upper-case form pick the same action.
pub proof fn lemma_action_keys(key: char, can_split: bool, can_double_down: bool)
    ensures
        (spec_action_for_key(key, can_split, can_double_down) == Some(BlackjackAction::Hit)) <==> (
        key == 'h' || key == 'H'),
        (spec_action_for_key(key, can_split, can_double_down) == Some(BlackjackAction::Stand)) <==> (
        key == 's' || key == 'S'),
        (spec_action_for_key(key, can_split, can_double_down) == Some(BlackjackAction::Split)) <==> (
        (key == 'x' || key == 'X') && can_split),
        (spec_action_for_key(key, can_split, can_double_down) == Some(BlackjackAction::DoubleDown))
            <==> ((key == 'd' || key == 'D') && can_double_down),
        spec_action_for_key(key, can_split, can_double_down) is None <==> !(key == 'h' || key == 'H'
            || key == 's' || key == 'S' || ((key == 'x' || key == 'X') && can_split) || ((key == 'd'
            || key == 'D') && can_double_down)),
        'a' <= key <= 'z' ==> spec_action_for_key(key, can_split, can_double_down)
            == spec_action_for_key(((key as int) - 32) as char, can_split, can_double_down),
{
}

/// Yes-or-no keys, in either case: `y` answers yes, `n` answers no, every
/// other key answers nothing; a letter and its upper-case form answer alike.
pub proof fn lemma_bool_keys(key: char)
    ensures
        (spec_bool_key_answer(key) == Some(true)) <==> (key == 'y' || key == 'Y'),
        (spec_bool_key_answer(key) == Some(false)) <==> (key == 'n' || key == 'N'),
        spec_bool_key_answer(key) is None <==> !(key == 'y' || key == 'Y' || key == 'n' || key
            == 'N'),
        'a' <= key <= 'z' ==> spec_bool_key_answer(key) == spec_bool_key_answer(
            ((key as int) - 32) as char,
        ),
{
}

/// Reading back the decimal text of a number gives the number: typing the
/// digits that the game shows for `n` enters `n`.
pub proof fn lemma_digits_read_back(n: nat)
    ensures
        digits_value(crate::text::decimal(n)) == n,
        forall|i: int| 0 <= i < crate::text::decimal(n).len() ==> is_digit(#[trigger] crate::text::decimal(n)[i]),
    decreases n,
{
    let d = crate::text::decimal(n);
    if n >= 10 {
        lemma_digits_read_back(n / 10);
        let pre = crate::text::decimal(n / 10);
        assert(d.drop_last() =~= pre);
        assert(d.last() == crate::text::digit_char(n % 10));
        assert forall|i: int| 0 <= i < d.len() implies is_digit(#[trigger] d[i]) by {
            if i < pre.len() {
                assert(d[i] == pre[i]);
            }
        }
    } else {
        assert(d.drop_last() =~= Seq::<char>::empty());
        assert(digits_value(d.drop_last()) == 0);
    }
}

} // verus!
