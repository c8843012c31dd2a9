//! Actions, their canonical text, and the order that the text induces.

use vstd::prelude::*;
use vstd::string::*;

verus! {

/// What a player can do in one turn. `Seed` names the target cell first and
/// the cell of the tree that throws the seed second. `Null` is a placeholder
/// that stands for no action at all.
#[derive(Clone, Copy, Debug, PartialEq, Eq, Structural)]
pub enum Action {
    Grow(i32),
    Seed(i32, i32),
    Complete(i32),
    Wait,
    Null,
}

/// The verb of a grow action.
pub open spec fn grow_word() -> Seq<char> {
    seq!['G', 'R', 'O', 'W']
}

/// The verb of a seed action.
pub open spec fn seed_word() -> Seq<char> {
    seq!['S', 'E', 'E', 'D']
}

/// The verb of a complete action.
pub open spec fn complete_word() -> Seq<char> {
    seq!['C', 'O', 'M', 'P', 'L', 'E', 'T', 'E']
}

/// The text of a wait.
pub open spec fn wait_word() -> Seq<char> {
    seq!['W', 'A', 'I', 'T']
}

/// The text of the placeholder.
pub open spec fn null_word() -> Seq<char> {
    seq!['N', 'U', 'L', 'L']
}

/// The character of the decimal digit `d`.
pub open spec fn digit(d: int) -> char {
    if d == 0 {
        '0'
    } else if d == 1 {
        '1'
    } else if d == 2 {
        '2'
    } else if d == 3 {
        '3'
    } else if d == 4 {
        '4'
    } else if d == 5 {
        '5'
    } else if d == 6 {
        '6'
    } else if d == 7 {
        '7'
    } else if d == 8 {
        '8'
    } else {
        '9'
    }
}

/// The decimal digits of `n`, most significant first, without leading zeros.
pub open spec fn digits(n: nat) -> Seq<char>
    decreases n,
{
    if n < 10 {
        seq![digit(n as int)]
    } else {
        digits(n / 10).push(digit((n % 10) as int))
    }
}

/// The decimal text of `n`: a minus sign for a negative number, then its digits.
pub open spec fn decimal(n: int) -> Seq<char> {
    if n < 0 {
        seq!['-'] + digits((-n) as nat)
    } else {
        digits(n as nat)
    }
}

/// Lexicographic order on texts: `a` comes strictly before `b`.
pub open spec fn lex_lt(a: Seq<char>, b: Seq<char>) -> bool
    decreases a.len(),
{
    if b.len() == 0 {
        false
    } else if a.len() == 0 {
        true
    } else if a[0] != b[0] {
        (a[0] as u32) < (b[0] as u32)
    } else {
        lex_lt(a.drop_first(), b.drop_first())
    }
}

/// Whether `actions` is in canonical order: ascending by canonical text.
pub open spec fn canonically_sorted(actions: Seq<Action>) -> bool {
    forall|i: int, j: int|
        0 <= i < j < actions.len() ==> !lex_lt(
            (#[trigger] actions[j]).text(),
            (#[trigger] actions[i]).text(),
        )
}

/// The lexicographic order is transitive.
pub proof fn lemma_lex_lt_transitive(a: Seq<char>, b: Seq<char>, c: Seq<char>)
    requires
        lex_lt(a, b),
        lex_lt(b, c),
    ensures
        lex_lt(a, c),
    decreases a.len(),
{
    if a.len() > 0 && a[0] == b[0] && b[0] == c[0] {
        lemma_lex_lt_transitive(a.drop_first(), b.drop_first(), c.drop_first());
    }
}

/// No text comes before itself.
pub proof fn lemma_lex_lt_irreflexive(a: Seq<char>)
    ensures
        !lex_lt(a, a),
    decreases a.len(),
{
    if a.len() > 0 {
        lemma_lex_lt_irreflexive(a.drop_first());
    }
}

/// Of two different texts one comes before the other.
pub proof fn lemma_lex_lt_total(a: Seq<char>, b: Seq<char>)
    ensures
        a == b || lex_lt(a, b) || lex_lt(b, a),
    decreases a.len(),
{
    if a.len() == 0 || b.len() == 0 {
        if a.len() == 0 && b.len() == 0 {
            assert(a =~= b);
        }
    } else if a[0] == b[0] {
        lemma_lex_lt_total(a.drop_first(), b.drop_first());
        if a.drop_first() == b.drop_first() {
            assert(a =~= seq![a[0]] + a.drop_first());
            assert(b =~= seq![b[0]] + b.drop_first());
        }
    } else {
        lemma_codes_differ(a[0], b[0]);
    }
}

/// Different characters have different codes.
proof fn lemma_codes_differ(c: char, d: char)
    requires
        c != d,
    ensures
        c as u32 != d as u32,
{
}

fn digit_of(d: u32) -> (c: char)
    requires
        d < 10,
    ensures
        c == digit(d as int),
{
    match d {
        0 => '0',
        1 => '1',
        2 => '2',
        3 => '3',
        4 => '4',
        5 => '5',
        6 => '6',
        7 => '7',
        8 => '8',
        _ => '9',
    }
}

fn digit_str(d: u32) -> (s: &'static str)
    requires
        d < 10,
    ensures
        s@ == seq![digit(d as int)],
{
    proof {
        reveal_strlit("0");
        reveal_strlit("1");
        reveal_strlit("2");
        reveal_strlit("3");
        reveal_strlit("4");
        reveal_strlit("5");
        reveal_strlit("6");
        reveal_strlit("7");
        reveal_strlit("8");
        reveal_strlit("9");
    }
    let s = match d {
        0 => "0",
        1 => "1",
        2 => "2",
        3 => "3",
        4 => "4",
        5 => "5",
        6 => "6",
        7 => "7",
        8 => "8",
        _ => "9",
    };
    assert(s@ =~= seq![digit(d as int)]);
    s
}

fn push_digits(out: &mut Vec<char>, n: u32)
    ensures
        final(out)@ == old(out)@ + digits(n as nat),
    decreases n,
{
    if n >= 10 {
        push_digits(out, n / 10);
    }
    out.push(digit_of(n % 10));
    assert(out@ =~= old(out)@ + digits(n as nat));
}

fn push_decimal(out: &mut Vec<char>, n: i32)
    ensures
        final(out)@ == old(out)@ + decimal(n as int),
{
    if n < 0 {
        out.push('-');
        let magnitude: u32 = (-(n as i64)) as u32;
        push_digits(out, magnitude);
        assert(out@ =~= old(out)@ + decimal(n as int));
    } else {
        push_digits(out, n as u32);
    }
}

fn append_digits(out: &mut String, n: u32)
    ensures
        final(out)@ == old(out)@ + digits(n as nat),
    decreases n,
{
    if n >= 10 {
        append_digits(out, n / 10);
    }
    out.append(digit_str(n % 10));
    assert(out@ =~= old(out)@ + digits(n as nat));
}

fn append_decimal(out: &mut String, n: i32)
    ensures
        final(out)@ == old(out)@ + decimal(n as int),
{
    if n < 0 {
        proof {
            reveal_strlit("-");
        }
        out.append("-");
        let magnitude: u32 = (-(n as i64)) as u32;
        append_digits(out, magnitude);
        assert(out@ =~= old(out)@ + decimal(n as int));
    } else {
        append_digits(out, n as u32);
    }
}

/// Whether the text `a` comes strictly before the text `b`.
pub fn text_precedes(a: &Vec<char>, b: &Vec<char>) -> (r: bool)
    ensures
        r == lex_lt(a@, b@),
{
    let mut i: usize = 0;
    proof {
        assert(a@.skip(0) =~= a@);
        assert(b@.skip(0) =~= b@);
    }
    while i < a.len() && i < b.len()
        invariant
            i <= a.len(),
            i <= b.len(),
            lex_lt(a@, b@) == lex_lt(a@.skip(i as int), b@.skip(i as int)),
        decreases a.len() - i,
    {
        let x = a[i];
        let y = b[i];
        proof {
            assert(a@.skip(i as int)[0] == x);
            assert(b@.skip(i as int)[0] == y);
            assert(a@.skip(i as int).drop_first() =~= a@.skip(i + 1));
            assert(b@.skip(i as int).drop_first() =~= b@.skip(i + 1));
        }
        if x != y {
            return (x as u32) < (y as u32);
        }
        i += 1;
    }
    i < b.len()
}

impl Action {
    /// The canonical text of the action: `GROW <cell>`, `SEED <origin>
    /// <target>`, `COMPLETE <cell>`, `WAIT`, and `NULL` for the placeholder.
    pub open spec fn text(self) -> Seq<char> {
        match self {
            Action::Grow(cell) => grow_word() + seq![' '] + decimal(cell as int),
            Action::Seed(target, origin) => seed_word() + seq![' '] + decimal(origin as int)
                + seq![' '] + decimal(target as int),
            Action::Complete(cell) => complete_word() + seq![' '] + decimal(cell as int),
            Action::Wait => wait_word(),
            Action::Null => null_word(),
        }
    }

    /// The canonical text, as characters.
    pub fn text_chars(&self) -> (chars: Vec<char>)
        ensures
            chars@ == self.text(),
    {
        let mut out: Vec<char> = Vec::new();
        match *self {
            Action::Grow(cell) => {
                out.push('G');
                out.push('R');
                out.push('O');
                out.push('W');
                out.push(' ');
                push_decimal(&mut out, cell);
            },
            Action::Seed(target, origin) => {
                out.push('S');
                out.push('E');
                out.push('E');
                out.push('D');
                out.push(' ');
                push_decimal(&mut out, origin);
                out.push(' ');
                push_decimal(&mut out, target);
            },
            Action::Complete(cell) => {
                out.push('C');
                out.push('O');
                out.push('M');
                out.push('P');
                out.push('L');
                out.push('E');
                out.push('T');
                out.push('E');
                out.push(' ');
                push_decimal(&mut out, cell);
            },
            Action::Wait => {
                out.push('W');
                out.push('A');
                out.push('I');
                out.push('T');
            },
            Action::Null => {
                out.push('N');
                out.push('U');
                out.push('L');
                out.push('L');
            },
        }
        assert(out@ =~= self.text());
        out
    }

    /// The canonical text.
    pub fn to_text(&self) -> (text: String)
        ensures
            text@ == self.text(),
    {
        proof {
            reveal_strlit("GROW ");
            reveal_strlit("SEED ");
            reveal_strlit("COMPLETE ");
            reveal_strlit("WAIT");
            reveal_strlit("NULL");
            reveal_strlit(" ");
        }
        match *self {
            Action::Grow(cell) => {
                let mut out = String::from_str("GROW ");
                append_decimal(&mut out, cell);
                assert(out@ =~= self.text());
                out
            },
            Action::Seed(target, origin) => {
                let mut out = String::from_str("SEED ");
                append_decimal(&mut out, origin);
                out.append(" ");
                append_decimal(&mut out, target);
                assert(out@ =~= self.text());
                out
            },
            Action::Complete(cell) => {
                let mut out = String::from_str("COMPLETE ");
                append_decimal(&mut out, cell);
                assert(out@ =~= self.text());
                out
            },
            Action::Wait => {
                let out = String::from_str("WAIT");
                assert(out@ =~= self.text());
                out
            },
            Action::Null => {
                let out = String::from_str("NULL");
                assert(out@ =~= self.text());
                out
            },
        }
    }
}

/// The canonical texts of `actions`, in the same order.
fn text_keys(actions: &Vec<Action>) -> (keys: Vec<Vec<char>>)
    ensures
        keys.len() == actions.len(),
        forall|i: int| 0 <= i < keys.len() ==> (#[trigger] keys[i])@ == actions[i].text(),
{
    let mut keys: Vec<Vec<char>> = Vec::new();
    let mut i: usize = 0;
    while i < actions.len()
        invariant
            i <= actions.len(),
            keys.len() == i,
            forall|k: int| 0 <= k < i ==> (#[trigger] keys[k])@ == actions[k].text(),
        decreases actions.len() - i,
    {
        keys.push(actions[i].text_chars());
        i += 1;
    }
    keys
}

/// The position of a text in `keys` that no other text precedes.
fn first_key(keys: &Vec<Vec<char>>) -> (m: usize)
    requires
        keys.len() > 0,
    ensures
        m < keys.len(),
        forall|j: int| 0 <= j < keys.len() ==> !lex_lt((#[trigger] keys[j])@, keys[m as int]@),
{
    let mut m: usize = 0;
    let mut j: usize = 1;
    proof {
        lemma_lex_lt_irreflexive(keys[0]@);
    }
    while j < keys.len()
        invariant
            1 <= j <= keys.len(),
            m < j,
            forall|k: int| 0 <= k < j ==> !lex_lt((#[trigger] keys[k])@, keys[m as int]@),
        decreases keys.len() - j,
    {
        if text_precedes(&keys[j], &keys[m]) {
            proof {
                assert forall|k: int| 0 <= k < j + 1 implies !lex_lt(
                    (#[trigger] keys[k])@,
                    keys[j as int]@,
                ) by {
                    if lex_lt(keys[k]@, keys[j as int]@) {
                        lemma_lex_lt_transitive(keys[k]@, keys[j as int]@, keys[m as int]@);
                    }
                    lemma_lex_lt_irreflexive(keys[j as int]@);
                }
            }
            m = j;
        }
        j += 1;
    }
    m
}

/// Puts `actions` in canonical order: ascending by canonical text. The
/// result holds the same actions, each as often as before.
pub fn sort_canonical(actions: Vec<Action>) -> (sorted: Vec<Action>)
    ensures
        sorted@.to_multiset() == actions@.to_multiset(),
        canonically_sorted(sorted@),
        sorted.len() == actions.len(),
{
    let ghost all = actions@;
    let mut rest = actions;
    let mut keys = text_keys(&rest);
    let mut sorted: Vec<Action> = Vec::new();
    proof {
        broadcast use vstd::seq_lib::group_to_multiset_ensures;

        assert(sorted@.to_multiset().add(rest@.to_multiset()) =~= all.to_multiset());
    }
    while rest.len() > 0
        invariant
            keys.len() == rest.len(),
            forall|i: int| 0 <= i < keys.len() ==> (#[trigger] keys[i])@ == rest[i].text(),
            sorted@.to_multiset().add(rest@.to_multiset()) == all.to_multiset(),
            sorted.len() + rest.len() == all.len(),
            canonically_sorted(sorted@),
            forall|i: int, j: int|
                0 <= i < sorted.len() && 0 <= j < rest.len() ==> !lex_lt(
                    (#[trigger] rest[j]).text(),
                    (#[trigger] sorted[i]).text(),
                ),
        decreases rest.len(),
    {
        let m = first_key(&keys);
        let ghost before_rest = rest@;
        let ghost before_sorted = sorted@;
        let ghost before_keys = keys@;
        let action = rest.remove(m);
        let _ = keys.remove(m);
        sorted.push(action);
        proof {
            broadcast use vstd::seq_lib::group_to_multiset_ensures;

            assert(forall|j: int| 0 <= j < before_keys.len() ==> (#[trigger] before_keys[j])@ == before_rest[j].text());
            assert(rest@ == before_rest.remove(m as int));
            assert(sorted@ == before_sorted.push(action));
            assert(before_rest.to_multiset().count(action) > 0) by {
                assert(before_rest.contains(action));
            }
            assert(sorted@.to_multiset().add(rest@.to_multiset()) =~= before_sorted.to_multiset().add(
                before_rest.to_multiset(),
            ));
            assert forall|i: int, j: int| 0 <= i < j < sorted.len() implies !lex_lt(
                (#[trigger] sorted[j]).text(),
                (#[trigger] sorted[i]).text(),
            ) by {
                if j == sorted.len() - 1 {
                    assert(sorted[j] == before_rest[m as int]);
                    assert(sorted[i] == before_sorted[i]);
                }
            }
            assert forall|i: int, j: int|
                0 <= i < sorted.len() && 0 <= j < rest.len() implies !lex_lt(
                (#[trigger] rest[j]).text(),
                (#[trigger] sorted[i]).text(),
            ) by {
                let jj = if j < m { j } else { j + 1 };
                assert(rest[j] == before_rest[jj]);
                if i == sorted.len() - 1 {
                    assert(before_keys[jj]@ == before_rest[jj].text());
                    assert(before_keys[m as int]@ == before_rest[m as int].text());
                } else {
                    assert(sorted[i] == before_sorted[i]);
                }
            }
        }
    }
    proof {
        assert(rest@ =~= Seq::<Action>::empty());
        assert(sorted@.to_multiset().add(rest@.to_multiset()) =~= sorted@.to_multiset());
    }
    sorted
}

} // verus!
