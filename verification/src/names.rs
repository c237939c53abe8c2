//! The names of segment files: the generation in decimal, then `.log`.

use vstd::prelude::*;

verus! {

/// The character of a decimal digit.
pub open spec fn digit(d: int) -> char {
    if d == 0 {
        '0'
    } else if d == 1 {
        '1'
    } else if d == 2 {
        '2'
    } else if d == 3 {
        '3'
    } else if d == 4 {
        '4'
    } else if d == 5 {
        '5'
    } else if d == 6 {
        '6'
    } else if d == 7 {
        '7'
    } else if d == 8 {
        '8'
    } else {
        '9'
    }
}

/// A number in decimal, without leading zeros.
pub open spec fn decimal(n: nat) -> Seq<char>
    decreases n,
{
    if n < 10 {
        seq![digit(n as int)]
    } else {
        decimal(n / 10).push(digit((n % 10) as int))
    }
}

/// `.log`
pub open spec fn log_suffix() -> Seq<char> {
    seq!['.', 'l', 'o', 'g']
}

/// The name of the segment file of a generation.
pub open spec fn segment_name(generation: u64) -> Seq<char> {
    decimal(generation as nat) + log_suffix()
}

fn digit_text(d: u64) -> (text: &'static str)
    requires
        d < 10,
    ensures
        text@ == seq![digit(d as int)],
{
    proof {
        reveal_strlit("0");
        reveal_strlit("1");
        reveal_strlit("2");
        reveal_strlit("3");
        reveal_strlit("4");
        reveal_strlit("5");
        reveal_strlit("6");
        reveal_strlit("7");
        reveal_strlit("8");
        reveal_strlit("9");
    }
    let text = if d == 0 {
        "0"
    } else if d == 1 {
        "1"
    } else if d == 2 {
        "2"
    } else if d == 3 {
        "3"
    } else if d == 4 {
        "4"
    } else if d == 5 {
        "5"
    } else if d == 6 {
        "6"
    } else if d == 7 {
        "7"
    } else if d == 8 {
        "8"
    } else {
        "9"
    };
    assert(text@ =~= seq![digit(d as int)]);
    text
}

fn push_decimal(n: u64, out: &mut String)
    ensures
        final(out)@ == old(out)@ + decimal(n as nat),
    decreases n,
{
    if n >= 10 {
        push_decimal(n / 10, out);
    }
    out.append(digit_text(n % 10));
    assert(out@ =~= old(out)@ + decimal(n as nat));
}

/// The name of the segment file of `generation`, to be joined to the
/// store's directory.
pub fn create_path(generation: u64) -> (name: String)
    ensures
        name@ == segment_name(generation),
{
    let mut name = String::new();
    push_decimal(generation, &mut name);
    proof {
        reveal_strlit(".log");
        assert(".log"@ =~= log_suffix());
    }
    name.append(".log");
    assert(name@ =~= segment_name(generation));
    name
}

/// The number that a sequence of decimal digits stands for.
pub open spec fn number(digits: Seq<char>) -> nat
    decreases digits.len(),
{
    if digits.len() == 0 {
        0
    } else {
        number(digits.drop_last()) * 10 + digit_number(digits.last())
    }
}

/// The number of a decimal digit; 0 for any other character.
pub open spec fn digit_number(c: char) -> nat {
    if c == '1' {
        1
    } else if c == '2' {
        2
    } else if c == '3' {
        3
    } else if c == '4' {
        4
    } else if c == '5' {
        5
    } else if c == '6' {
        6
    } else if c == '7' {
        7
    } else if c == '8' {
        8
    } else if c == '9' {
        9
    } else {
        0
    }
}

/// Whether a character is a decimal digit.
pub open spec fn is_digit(c: char) -> bool {
    c == digit(digit_number(c) as int)
}

/// A number in decimal is digits only, begins with `0` only if it is 0,
/// and stands for the number.
pub proof fn lemma_decimal(n: nat)
    ensures
        decimal(n).len() >= 1,
        forall|i: int| 0 <= i < decimal(n).len() ==> is_digit(#[trigger] decimal(n)[i]),
        n >= 1 ==> decimal(n)[0] != '0',
        number(decimal(n)) == n,
    decreases n,
{
    if n < 10 {
        assert(decimal(n).drop_last() =~= Seq::<char>::empty());
        assert(number(decimal(n).drop_last()) == 0);
    } else {
        lemma_decimal(n / 10);
        assert(decimal(n).drop_last() =~= decimal(n / 10));
    }
}

/// Two numbers with the same decimal are the same number.
pub proof fn lemma_decimal_one_to_one(a: nat, b: nat)
    requires
        decimal(a) == decimal(b),
    ensures
        a == b,
{
    lemma_decimal(a);
    lemma_decimal(b);
}

/// A number whose decimal begins with the decimal of `a` is at least `a`.
proof fn lemma_decimal_prefix(g: nat, a: nat, k: int)
    requires
        1 <= k <= decimal(g).len(),
        decimal(g).take(k) == decimal(a),
    ensures
        a <= g,
    decreases g,
{
    if k == decimal(g).len() {
        assert(decimal(g).take(k) =~= decimal(g));
        lemma_decimal_one_to_one(a, g);
    } else {
        assert(g >= 10);
        assert(decimal(g).take(k) =~= decimal(g / 10).take(k));
        lemma_decimal_prefix(g / 10, a, k);
    }
}

/// The number of the decimal digit `c`, if it is one.
fn digit_value(c: char) -> (r: Option<u64>)
    ensures
        match r {
            Some(d) => d < 10 && c == digit(d as int) && is_digit(c),
            None => !is_digit(c),
        },
{
    if c == '0' {
        Some(0)
    } else if c == '1' {
        Some(1)
    } else if c == '2' {
        Some(2)
    } else if c == '3' {
        Some(3)
    } else if c == '4' {
        Some(4)
    } else if c == '5' {
        Some(5)
    } else if c == '6' {
        Some(6)
    } else if c == '7' {
        Some(7)
    } else if c == '8' {
        Some(8)
    } else if c == '9' {
        Some(9)
    } else {
        None
    }
}

/// The generation whose segment file has the name `name`, or `None` for
/// any other name.
pub fn segment_generation(name: &str) -> (r: Option<u64>)
    ensures
        match r {
            Some(generation) => name@ == segment_name(generation),
            None => forall|generation: u64| name@ != segment_name(generation),
        },
{
    let n: usize = name.unicode_len();
    if n < 5 {
        assert forall|g: u64| name@ != segment_name(g) by {
            lemma_decimal(g as nat);
        }
        return None;
    }
    let m: usize = n - 4;
    if name.get_char(m) != '.' || name.get_char(m + 1) != 'l' || name.get_char(m + 2) != 'o'
        || name.get_char(m + 3) != 'g' {
        assert forall|g: u64| name@ != segment_name(g) by {
            if name@ == segment_name(g) {
                assert(segment_name(g)[m as int] == log_suffix()[0]);
                assert(segment_name(g)[m + 1] == log_suffix()[1]);
                assert(segment_name(g)[m + 2] == log_suffix()[2]);
                assert(segment_name(g)[m + 3] == log_suffix()[3]);
            }
        }
        return None;
    }
    let first: u64 = match digit_value(name.get_char(0)) {
        Some(d) => d,
        None => {
            assert forall|g: u64| name@ != segment_name(g) by {
                if name@ == segment_name(g) {
                    lemma_decimal(g as nat);
                    assert(name@[0] == decimal(g as nat)[0]);
                }
            }
            return None;
        },
    };
    if first == 0 && m > 1 {
        assert forall|g: u64| name@ != segment_name(g) by {
            if name@ == segment_name(g) {
                lemma_decimal(g as nat);
                assert(name@[0] == decimal(g as nat)[0]);
            }
        }
        return None;
    }
    let mut value: u64 = first;
    let mut i: usize = 1;
    assert(name@.take(1) =~= decimal(value as nat));
    while i < m
        invariant
            n == name@.len(),
            m == n - 4,
            1 <= i <= m,
            value >= 1 || m == 1,
            name@.take(i as int) == decimal(value as nat),
        decreases m - i,
    {
        let d: u64 = match digit_value(name.get_char(i)) {
            Some(d) => d,
            None => {
                assert forall|g: u64| name@ != segment_name(g) by {
                    if name@ == segment_name(g) {
                        lemma_decimal(g as nat);
                        assert(name@[i as int] == decimal(g as nat)[i as int]);
                    }
                }
                return None;
            },
        };
        let ghost longer = (value * 10 + d) as nat;
        assert(name@.take(i + 1) =~= decimal(longer)) by {
            assert(name@.take(i + 1) =~= name@.take(i as int).push(name@[i as int]));
            assert(longer / 10 == value && longer % 10 == d);
        }
        if value > (u64::MAX - d) / 10 {
            assert forall|g: u64| name@ != segment_name(g) by {
                if name@ == segment_name(g) {
                    assert(decimal(g as nat).take(i + 1) =~= name@.take(i + 1));
                    lemma_decimal_prefix(g as nat, longer, i + 1);
                }
            }
            return None;
        }
        value = value * 10 + d;
        i += 1;
    }
    assert(name@ =~= segment_name(value));
    Some(value)
}

/// Each generation is smaller than all that follow it.
pub open spec fn ascending(generations: Seq<u64>) -> bool {
    forall|i: int, j: int| 0 <= i < j < generations.len() ==> generations[i] < generations[j]
}

/// Whether one of the first `n` of `names` is the name of the segment
/// file of `generation`.
pub open spec fn names_generation(names: Seq<String>, n: int, generation: u64) -> bool {
    exists|i: int| 0 <= i < n && i < names.len() && (#[trigger] names[i])@ == segment_name(generation)
}

/// Enters `generation` into an ascending list, unless it stands there.
fn enter_generation(list: &mut Vec<u64>, generation: u64)
    requires
        ascending(old(list)@),
    ensures
        ascending(final(list)@),
        forall|g: u64| #[trigger]
            final(list)@.contains(g) <==> (g == generation || old(list)@.contains(g)),
{
    let mut at: usize = list.len();
    while at > 0 && list[at - 1] > generation
        invariant
            at <= list@.len(),
            list@ == old(list)@,
            forall|j: int| at <= j < list@.len() ==> list@[j] > generation,
        decreases at,
    {
        at -= 1;
    }
    if at > 0 && list[at - 1] == generation {
        assert(list@.contains(generation)) by {
            assert(list@[at - 1] == generation);
        }
        return ;
    }
    let ghost before = list@;
    list.insert(at, generation);
    proof {
        assert forall|i: int, j: int| 0 <= i < j < list@.len() implies list@[i] < list@[j] by {
            let i0 = if i < at { i } else { i - 1 };
            let j0 = if j < at { j } else { j - 1 };
            if i != at && j != at {
                assert(before[i0] < before[j0]);
            } else if i == at {
                assert(before[j0] > generation);
            } else {
                if at > 0 {
                    assert(before[i0] <= before[at - 1]) by {
                        if i0 < at - 1 {
                            assert(before[i0] < before[at - 1]);
                        }
                    }
                }
            }
        }
        assert forall|g: u64| #[trigger]
            list@.contains(g) <==> (g == generation || before.contains(g)) by {
            if list@.contains(g) {
                let i = list@.index_of(g);
                if i < at {
                    assert(before[i] == g);
                } else if i > at {
                    assert(before[i - 1] == g);
                }
            }
            if g == generation {
                assert(list@[at as int] == g);
            } else if before.contains(g) {
                let i = before.index_of(g);
                if i < at {
                    assert(list@[i] == g);
                } else {
                    assert(list@[i + 1] == g);
                }
            }
        }
    }
}

/// The generations of the segment files among `names`, ascending, each
/// once. Other names are passed over.
pub fn sorted_file_idx_list(names: &Vec<String>) -> (list: Vec<u64>)
    ensures
        ascending(list@),
        forall|g: u64| #[trigger]
            list@.contains(g) <==> names_generation(names@, names@.len() as int, g),
{
    let mut list: Vec<u64> = Vec::new();
    let mut n: usize = 0;
    while n < names.len()
        invariant
            n <= names@.len(),
            ascending(list@),
            forall|g: u64| #[trigger] list@.contains(g) <==> names_generation(names@, n as int, g),
        decreases names@.len() - n,
    {
        let ghost before = list@;
        let found = segment_generation(names[n].as_str());
        if let Some(generation) = found {
            enter_generation(&mut list, generation);
        }
        proof {
            assert forall|g: u64| #[trigger]
                list@.contains(g) <==> names_generation(names@, n + 1, g) by {
                if names_generation(names@, n + 1, g) {
                    let i = choose|i: int|
                        0 <= i < n + 1 && i < names@.len() && (#[trigger] names@[i])@
                            == segment_name(g);
                    if i == n {
                        lemma_segment_name_one_to_one(g, found.unwrap());
                    } else {
                        assert(names_generation(names@, n as int, g));
                    }
                }
                if list@.contains(g) {
                    if before.contains(g) {
                        let i = choose|i: int|
                            0 <= i < n && i < names@.len() && (#[trigger] names@[i])@
                                == segment_name(g);
                        assert(names@[i]@ == segment_name(g));
                    } else {
                        assert(names@[n as int]@ == segment_name(g));
                    }
                }
            }
        }
        n += 1;
    }
    list
}

/// Two generations with the same file name are the same generation.
pub proof fn lemma_segment_name_one_to_one(a: u64, b: u64)
    requires
        segment_name(a) == segment_name(b),
    ensures
        a == b,
{
    lemma_decimal(a as nat);
    lemma_decimal(b as nat);
    let x = decimal(a as nat);
    let y = decimal(b as nat);
    assert(x.len() == y.len()) by {
        assert(segment_name(a).len() == x.len() + 4);
        assert(segment_name(b).len() == y.len() + 4);
    }
    assert(x =~= y) by {
        assert forall|i: int| 0 <= i < x.len() implies x[i] == y[i] by {
            assert(segment_name(a)[i] == x[i]);
            assert(segment_name(b)[i] == y[i]);
        }
    }
}

} // verus!
