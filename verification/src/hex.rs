//! Hexadecimal numbers and how they are shown.
use crate::digits::{decimal, hexadecimal, push_decimal, push_hexadecimal};
use crate::show::put;
use crate::split::{join, join_strings, string_views};
use crate::text::chars_of;
use vstd::prelude::*;

verus! {

/// Bitmap of options for hex string display.
#[derive(Clone, Copy, PartialEq, Eq, Structural)]
pub struct HexFormat(pub u8);

/// The bit for upper case digits.
pub const UPPER_BIT: u8 = 0b1;

/// The bit for the prefix.
pub const PREFIX_BIT: u8 = 0b10;

/// The bit for columns.
pub const COLUMNS_BIT: u8 = 0b100;

/// The names of the options that are set.
pub open spec fn option_names(format: HexFormat) -> Seq<Seq<char>> {
    (if format.0 & UPPER_BIT != 0 {
        seq!["Upper"@]
    } else {
        seq![]
    }) + (if format.0 & PREFIX_BIT != 0 {
        seq!["Prefix"@]
    } else {
        seq![]
    }) + (if format.0 & COLUMNS_BIT != 0 {
        seq!["Columns"@]
    } else {
        seq![]
    })
}

impl HexFormat {
    /// No options.
    pub fn plain() -> (format: Self)
        ensures
            format.0 == 0,
    {
        HexFormat(0)
    }

    /// Upper case.
    pub fn upper() -> (format: Self)
        ensures
            format.0 == UPPER_BIT,
    {
        HexFormat(UPPER_BIT)
    }

    /// With the "0x" prefix.
    pub fn prefix() -> (format: Self)
        ensures
            format.0 == PREFIX_BIT,
    {
        HexFormat(PREFIX_BIT)
    }

    /// Divided by columns.
    pub fn columns() -> (format: Self)
        ensures
            format.0 == COLUMNS_BIT,
    {
        HexFormat(COLUMNS_BIT)
    }

    /// Whether the hex string is uppercase.
    pub fn is_upper(&self) -> (set: bool)
        ensures
            set == (self.0 & UPPER_BIT != 0),
    {
        self.0 & UPPER_BIT != 0
    }

    /// Whether the "0x" prefix should be shown.
    pub fn is_prefix(&self) -> (set: bool)
        ensures
            set == (self.0 & PREFIX_BIT != 0),
    {
        self.0 & PREFIX_BIT != 0
    }

    /// Whether the parts are divided by columns (":").
    pub fn is_columns(&self) -> (set: bool)
        ensures
            set == (self.0 & COLUMNS_BIT != 0),
    {
        self.0 & COLUMNS_BIT != 0
    }

    /// The names of the options.
    pub open spec fn names(self) -> Seq<char> {
        if self.0 == 0 {
            "Plain"@
        } else {
            join(option_names(self), "|"@)
        }
    }

    /// The names of the options.
    pub fn to_string(&self) -> (text: String)
        ensures
            text@ == self.names(),
    {
        if *self == Self::plain() {
            return String::from("Plain");
        }
        let mut parts: Vec<String> = Vec::new();
        if self.is_upper() {
            parts.push(String::from("Upper"));
        }
        if self.is_prefix() {
            parts.push(String::from("Prefix"));
        }
        if self.is_columns() {
            parts.push(String::from("Columns"));
        }
        assert(string_views(parts@) =~= option_names(*self));
        join_strings(&parts, "|")
    }

    /// The format as `Debug` shows it: the bitmap and the names of the options.
    pub fn debug_text(&self) -> (text: String)
        ensures
            text@ == "HexFmt("@ + decimal(self.0 as int) + ": "@ + self.names() + ")"@,
    {
        let mut text = String::new();
        text.append("HexFmt(");
        push_decimal(&mut text, self.0 as u64);
        text.append(": ");
        text.append(&self.to_string());
        text.append(")");
        assert(text@ =~= "HexFmt("@ + decimal(self.0 as int) + ": "@ + self.names() + ")"@);
        text
    }
}

impl std::fmt::Debug for HexFormat {
    fn fmt(&self, f: &mut std::fmt::Formatter<'_>) -> std::fmt::Result {
        put(f, &self.debug_text())
    }
}

/// A lower case letter in upper case; any other character as it is.
pub open spec fn upper_case(c: char) -> char {
    if 'a' <= c && c <= 'z' {
        (c as u32 - 32) as char
    } else {
        c
    }
}

/// `c` as the character at position `i` of a number that is divided by columns: every fourth
/// one but the first comes after a colon.
pub open spec fn column_piece(c: char, i: int) -> Seq<char> {
    if i % 4 == 0 && i != 0 {
        ":"@ + seq![c]
    } else {
        seq![c]
    }
}

/// The first `n` characters of `t`, divided by columns.
pub open spec fn in_columns(t: Seq<char>, n: int) -> Seq<char>
    decreases n,
{
    if n <= 0 {
        seq![]
    } else {
        in_columns(t, n - 1) + column_piece(t[n - 1], n - 1)
    }
}

/// How a number is shown in a format.
pub open spec fn shown(number: u64, format: HexFormat) -> Seq<char> {
    let digits = hexadecimal(number as int);
    let prefixed = if format.0 & PREFIX_BIT != 0 {
        "0x"@ + digits
    } else {
        digits
    };
    let cased = if format.0 & UPPER_BIT != 0 {
        prefixed.map_values(|c: char| upper_case(c))
    } else {
        prefixed
    };
    if format.0 & COLUMNS_BIT != 0 {
        in_columns(cased, cased.len() as int)
    } else {
        cased
    }
}

fn to_upper(c: char) -> (upper: char)
    ensures
        upper == upper_case(c),
{
    let code: u32 = c as u32;
    if 97 <= code && code <= 122 {
        ((code - 32) as u8) as char
    } else {
        c
    }
}

/// A hexadecimal number.
#[derive(Clone, Copy, PartialEq, Eq, Structural)]
pub struct Hex(pub u64);

impl Hex {
    /// The number.
    pub fn get(&self) -> (number: u64)
        ensures
            number == self.0,
    {
        self.0
    }

    /// The number as it is shown in a format.
    pub fn to_string(&self, fmt: HexFormat) -> (text: String)
        ensures
            text@ == shown(self.0, fmt),
    {
        let mut text = String::new();
        if fmt.is_prefix() {
            text.append("0x");
        }
        push_hexadecimal(&mut text, self.0);
        let ghost digits = hexadecimal(self.0 as int);
        let ghost prefixed = if fmt.0 & PREFIX_BIT != 0 {
            "0x"@ + digits
        } else {
            digits
        };
        assert(text@ =~= prefixed);
        if fmt.is_upper() {
            let chars = chars_of(&text);
            text = String::new();
            let mut i: usize = 0;
            while i < chars.len()
                invariant
                    i <= chars@.len(),
                    text@ == chars@.take(i as int).map_values(|c: char| upper_case(c)),
                decreases chars@.len() - i,
            {
                text.push(to_upper(chars[i]));
                i += 1;
                assert(text@ =~= chars@.take(i as int).map_values(|c: char| upper_case(c)));
            }
            assert(chars@.take(i as int) =~= chars@);
        }
        if fmt.is_columns() {
            let chars = chars_of(&text);
            text = String::new();
            let mut i: usize = 0;
            while i < chars.len()
                invariant
                    i <= chars@.len(),
                    text@ == in_columns(chars@, i as int),
                decreases chars@.len() - i,
            {
                if i % 4 == 0 && i != 0 {
                    text.append(":");
                }
                text.push(chars[i]);
                i += 1;
                assert(text@ =~= in_columns(chars@, i as int));
            }
        }
        text
    }

    /// The number as `Debug` shows it.
    pub fn debug_text(&self) -> (text: String)
        ensures
            text@ == "Hex("@ + hexadecimal(self.0 as int) + ")"@,
    {
        let mut text = String::new();
        text.append("Hex(");
        push_hexadecimal(&mut text, self.0);
        text.append(")");
        assert(text@ =~= "Hex("@ + hexadecimal(self.0 as int) + ")"@);
        text
    }
}

impl std::fmt::Debug for Hex {
    fn fmt(&self, f: &mut std::fmt::Formatter<'_>) -> std::fmt::Result {
        put(f, &self.debug_text())
    }
}

/// Without options that have a meaning the digits are shown alone.
pub proof fn law_plain_numbers(number: u64, format: HexFormat)
    requires
        format.0 & 1 == 0,
        format.0 & 2 == 0,
        format.0 & 4 == 0,
    ensures
        shown(number, format) == hexadecimal(number as int),
{
}

/// The prefix comes before the digits.
pub proof fn law_prefixed_numbers(number: u64, format: HexFormat)
    requires
        format.0 & 1 == 0,
        format.0 & 2 != 0,
        format.0 & 4 == 0,
    ensures
        shown(number, format) == seq!['0', 'x'] + hexadecimal(number as int),
{
    reveal_strlit("0x");
    assert("0x"@ =~= seq!['0', 'x']);
}

/// In upper case every letter is replaced by its capital, and nothing else changes.
pub proof fn law_upper_case_numbers(number: u64, format: HexFormat, lower: HexFormat, i: int)
    requires
        format.0 & 1 != 0,
        lower.0 & 1 == 0,
        format.0 & 2 == lower.0 & 2,
        format.0 & 4 == 0,
        lower.0 & 4 == 0,
    ensures
        shown(number, format).len() == shown(number, lower).len(),
        0 <= i < shown(number, lower).len() ==> {
            let (c, upper) = (shown(number, lower)[i], shown(number, format)[i]);
            &&& 'a' <= c && c <= 'z' ==> upper as u32 == c as u32 - 32
            &&& c < 'a' || c > 'z' ==> upper == c
        },
{
}

proof fn lemma_columns(t: Seq<char>, n: int, i: int)
    requires
        0 < n <= t.len(),
    ensures
        in_columns(t, n).len() == n + (n - 1) / 4,
        0 <= i < in_columns(t, n).len() ==> in_columns(t, n)[i] == (if i % 5 == 4 {
            ':'
        } else {
            t[i - i / 5]
        }),
    decreases n,
{
    reveal_strlit(":");
    let piece = column_piece(t[n - 1], n - 1);
    if n > 1 {
        lemma_columns(t, n - 1, i);
        let before = in_columns(t, n - 1);
        assert(in_columns(t, n) == before + piece);
        if (n - 1) % 4 == 0 {
            assert(piece =~= seq![':', t[n - 1]]);
        }
    } else {
        assert(in_columns(t, 0) =~= seq![]);
        assert(in_columns(t, n) =~= piece);
    }
}

/// In columns a colon stands between each four characters and the next, and nothing else
/// changes.
pub proof fn law_numbers_in_columns(number: u64, format: HexFormat, whole: HexFormat, i: int)
    requires
        format.0 & 4 != 0,
        whole.0 & 4 == 0,
        format.0 & 1 == whole.0 & 1,
        format.0 & 2 == whole.0 & 2,
    ensures
        shown(number, format).len() == shown(number, whole).len() + (shown(number, whole).len() - 1)
            / 4,
        0 <= i < shown(number, format).len() ==> shown(number, format)[i] == (if i % 5 == 4 {
            ':'
        } else {
            shown(number, whole)[i - i / 5]
        }),
{
    let t = shown(number, whole);
    assert(hexadecimal(number as int).len() > 0);
    assert(t.len() > 0);
    lemma_columns(t, t.len() as int, i);
}

/// The names of the options that are set, in their order.
pub proof fn law_option_names(format: HexFormat)
    ensures
        format.0 == 0 ==> format.names() == "Plain"@,
        format.0 != 0 ==> {
            let (u, p, c) = (format.0 & 1 != 0, format.0 & 2 != 0, format.0 & 4 != 0);
            &&& !u && !p && !c ==> format.names() == Seq::<char>::empty()
            &&& u && !p && !c ==> format.names() == "Upper"@
            &&& !u && p && !c ==> format.names() == "Prefix"@
            &&& !u && !p && c ==> format.names() == "Columns"@
            &&& u && p && !c ==> format.names() == "Upper"@ + seq!['|'] + "Prefix"@
            &&& u && !p && c ==> format.names() == "Upper"@ + seq!['|'] + "Columns"@
            &&& !u && p && c ==> format.names() == "Prefix"@ + seq!['|'] + "Columns"@
            &&& u && p && c ==> format.names() == "Upper"@ + seq!['|'] + "Prefix"@ + seq!['|']
                + "Columns"@
        },
{
    reveal_strlit("|");
    assert("|"@ =~= seq!['|']);
    let names = option_names(format);
    reveal_with_fuel(join, 4);
    if names.len() == 1 {
        assert(names =~= seq![names[0]]);
    } else if names.len() == 2 {
        assert(names.drop_last() =~= seq![names[0]]);
    } else if names.len() == 3 {
        assert(names.drop_last() =~= seq![names[0], names[1]]);
        assert(names.drop_last().drop_last() =~= seq![names[0]]);
    }
}

} // verus!
