//! A single bell, identified by its zero-based index.

use vstd::prelude::*;

verus! {

/// The number of bells that have a one-character name.
pub const NUM_NAMED_BELLS: usize = 33;

/// One bell, by its zero-based index (the treble is `0`).
#[derive(Clone, Copy, Debug, PartialEq, Eq, Structural, PartialOrd, Ord, Hash)]
pub struct Bell {
    pub index: usize,
}

/// The conventional one-character name of the bell with index `i`, where it has one:
/// `1`-`9`, `0` for the tenth, then `E`, `T` and further letters.
pub open spec fn name_of_index(i: usize) -> Option<char> {
    match i {
        0 => Some('1'),
        1 => Some('2'),
        2 => Some('3'),
        3 => Some('4'),
        4 => Some('5'),
        5 => Some('6'),
        6 => Some('7'),
        7 => Some('8'),
        8 => Some('9'),
        9 => Some('0'),
        10 => Some('E'),
        11 => Some('T'),
        12 => Some('A'),
        13 => Some('B'),
        14 => Some('C'),
        15 => Some('D'),
        16 => Some('F'),
        17 => Some('G'),
        18 => Some('H'),
        19 => Some('J'),
        20 => Some('K'),
        21 => Some('L'),
        22 => Some('M'),
        23 => Some('N'),
        24 => Some('P'),
        25 => Some('Q'),
        26 => Some('R'),
        27 => Some('S'),
        28 => Some('U'),
        29 => Some('V'),
        30 => Some('W'),
        31 => Some('Y'),
        32 => Some('Z'),
        _ => None,
    }
}

/// The index of the bell whose one-character name is `c`, if any bell is so named.
pub open spec fn index_of_name(c: char) -> Option<usize> {
    match c {
        '1' => Some(0usize),
        '2' => Some(1usize),
        '3' => Some(2usize),
        '4' => Some(3usize),
        '5' => Some(4usize),
        '6' => Some(5usize),
        '7' => Some(6usize),
        '8' => Some(7usize),
        '9' => Some(8usize),
        '0' => Some(9usize),
        'E' => Some(10usize),
        'T' => Some(11usize),
        'A' => Some(12usize),
        'B' => Some(13usize),
        'C' => Some(14usize),
        'D' => Some(15usize),
        'F' => Some(16usize),
        'G' => Some(17usize),
        'H' => Some(18usize),
        'J' => Some(19usize),
        'K' => Some(20usize),
        'L' => Some(21usize),
        'M' => Some(22usize),
        'N' => Some(23usize),
        'P' => Some(24usize),
        'Q' => Some(25usize),
        'R' => Some(26usize),
        'S' => Some(27usize),
        'U' => Some(28usize),
        'V' => Some(29usize),
        'W' => Some(30usize),
        'Y' => Some(31usize),
        'Z' => Some(32usize),
        _ => None,
    }
}

/// The decimal digits of `n`.
pub open spec fn decimal(n: nat) -> Seq<char>
    decreases n,
{
    let d = seq!['0', '1', '2', '3', '4', '5', '6', '7', '8', '9'][(n % 10) as int];
    if n < 10 {
        seq![d]
    } else {
        decimal(n / 10).push(d)
    }
}

/// The displayed name of the bell with index `i`: its one-character name, or its number
/// (one more than the index) between angle brackets.
pub open spec fn display_name(i: usize) -> Seq<char> {
    match name_of_index(i) {
        Some(c) => seq![c],
        None => seq!['<'] + decimal((i + 1) as nat) + seq!['>'],
    }
}

/// Reading the name of a named bell gives that bell back, and a name is read only as the
/// bell that it names.
pub proof fn lemma_name_round_trip(i: usize, c: char)
    ensures
        i < NUM_NAMED_BELLS ==> name_of_index(i) is Some && index_of_name(
            name_of_index(i)->Some_0,
        ) == Some(i),
        index_of_name(c) == Some(i) ==> i < NUM_NAMED_BELLS && name_of_index(i) == Some(c),
{
}

impl Bell {
    /// The bell with zero-based index `index`.
    pub fn from_index(index: usize) -> (r: Bell)
        ensures
            r.index == index,
    {
        Bell { index }
    }

    /// The bell with one-based number `number`, or `None` for `0`.
    pub fn from_number(number: usize) -> (r: Option<Bell>)
        ensures
            number == 0 ==> r is None,
            number > 0 ==> r == Some(Bell { index: (number - 1) as usize }),
    {
        if number == 0 {
            None
        } else {
            Some(Bell { index: number - 1 })
        }
    }

    /// The zero-based index of this bell.
    pub fn index(&self) -> (r: usize)
        ensures
            r == self.index,
    {
        self.index
    }

    /// The bell named by `c`, or `None` where no bell has that name.
    pub fn from_name(c: char) -> (r: Option<Bell>)
        ensures
            match index_of_name(c) {
                Some(i) => r == Some(Bell { index: i }),
                None => r is None,
            },
    {
        let i: usize = match c {
            '1' => 0,
            '2' => 1,
            '3' => 2,
            '4' => 3,
            '5' => 4,
            '6' => 5,
            '7' => 6,
            '8' => 7,
            '9' => 8,
            '0' => 9,
            'E' => 10,
            'T' => 11,
            'A' => 12,
            'B' => 13,
            'C' => 14,
            'D' => 15,
            'F' => 16,
            'G' => 17,
            'H' => 18,
            'J' => 19,
            'K' => 20,
            'L' => 21,
            'M' => 22,
            'N' => 23,
            'P' => 24,
            'Q' => 25,
            'R' => 26,
            'S' => 27,
            'U' => 28,
            'V' => 29,
            'W' => 30,
            'Y' => 31,
            'Z' => 32,
            _ => {
                return None;
            },
        };
        Some(Bell { index: i })
    }

    /// The one-character name of this bell, where it has one.
    pub fn to_char(&self) -> (r: Option<char>)
        ensures
            r == name_of_index(self.index),
    {
        match self.index {
            0 => Some('1'),
            1 => Some('2'),
            2 => Some('3'),
            3 => Some('4'),
            4 => Some('5'),
            5 => Some('6'),
            6 => Some('7'),
            7 => Some('8'),
            8 => Some('9'),
            9 => Some('0'),
            10 => Some('E'),
            11 => Some('T'),
            12 => Some('A'),
            13 => Some('B'),
            14 => Some('C'),
            15 => Some('D'),
            16 => Some('F'),
            17 => Some('G'),
            18 => Some('H'),
            19 => Some('J'),
            20 => Some('K'),
            21 => Some('L'),
            22 => Some('M'),
            23 => Some('N'),
            24 => Some('P'),
            25 => Some('Q'),
            26 => Some('R'),
            27 => Some('S'),
            28 => Some('U'),
            29 => Some('V'),
            30 => Some('W'),
            31 => Some('Y'),
            32 => Some('Z'),
            _ => None,
        }
    }
}

} // verus!

verus! {

impl Bell {
    /// The displayed name of this bell: its one-character name, or its number between angle
    /// brackets where it has none.
    pub fn name(&self) -> (r: String)
        requires
            self.index < usize::MAX,
        ensures
            r@ == display_name(self.index),
    {
        match self.to_char() {
            Some(c) => {
                let mut s = String::new();
                crate::text::push_char(&mut s, c);
                s
            },
            None => {
                let mut s = String::new();
                crate::text::push_char(&mut s, '<');
                let digits = crate::text::decimal_text(self.index + 1);
                crate::text::push_text(&mut s, digits.as_str());
                crate::text::push_char(&mut s, '>');
                assert(s@ =~= seq!['<'] + decimal((self.index + 1) as nat) + seq!['>']);
                s
            },
        }
    }
}

} // verus!
