//! Table names and table status.
//!
//! The backend enforces naming rules on tables: 3 to 255 characters, each
//! an ASCII letter or digit or one of `.`, `-`, `_`.  [`TableName`] holds
//! only validated names.  [`TableStatus`] reports whether provisioning
//! found the table already present or created it.

use vstd::prelude::*;
use vstd::std_specs::iter::IteratorSpec;
use vstd::string::StringSliceAdditionalSpecFns;

verus! {

/// Status of a table at the creation time of a client.
#[derive(Clone, Copy, Debug, Eq, PartialEq, Structural)]
pub enum TableStatus {
    /// The table was created during construction.
    New,
    /// The table already existed when construction began.
    Existing,
}

impl TableStatus {
    /// The status a table-creation response maps to: a response that the
    /// resource is already in use means the table existed; a plain success
    /// means it was created now.
    pub fn interpret_creation(resource_in_use: bool) -> (r: TableStatus)
        ensures
            r == (if resource_in_use {
                TableStatus::Existing
            } else {
                TableStatus::New
            }),
    {
        if resource_in_use {
            TableStatus::Existing
        } else {
            TableStatus::New
        }
    }
}

/// Error when validating a table name.
#[derive(Clone, Copy, Debug, Eq, PartialEq, Structural)]
pub enum InvalidTableName {
    /// The table name has fewer than 3 characters.
    TooShort,
    /// The table name has more than 255 characters.
    TooLong,
    /// The table name holds a character that is not an ASCII letter or
    /// digit, `.`, `-` or `_`.
    InvalidCharacter,
}

/// Whether one character may appear in a table name: an ASCII letter or
/// digit, or `.`, `-`, `_`.
pub open spec fn valid_table_name_char(c: char) -> bool {
    ||| '0' <= c <= '9'
    ||| 'A' <= c <= 'Z'
    ||| 'a' <= c <= 'z'
    ||| c == '.'
    ||| c == '-'
    ||| c == '_'
}

/// Whether a whole name is acceptable.
pub open spec fn valid_table_name(s: Seq<char>) -> bool {
    &&& 3 <= s.len() <= 255
    &&& forall|i: int| 0 <= i < s.len() ==> valid_table_name_char(#[trigger] s[i])
}

/// A validated backend table name.
#[derive(Clone, Debug, Eq, PartialEq)]
pub struct TableName(String);

impl TableName {
    /// The characters of the name.
    pub closed spec fn view(&self) -> Seq<char> {
        self.0@
    }

    /// Counts the characters of the name, stopping at 256: enough to place
    /// the count against the 3 to 255 window.
    fn char_count_capped(string: &str) -> (r: usize)
        ensures
            r == (if string@.len() > 256 {
                256int
            } else {
                string@.len() as int
            }),
    {
        broadcast use vstd::string::group_string_axioms;

        let mut it = string.chars();
        let mut count: usize = 0;
        proof {
            assert(it.remaining() =~= string@.skip(0));
        }
        loop
            invariant
                it.remaining() == string@.skip(count as int),
                count <= string@.len(),
                count <= 256,
            decreases string@.len() - count,
        {
            if count == 256 {
                return 256;
            }
            let c = it.next();
            match c {
                Some(_) => {
                    proof {
                        assert(string@.skip(count as int).drop_first() =~= string@.skip(
                            count as int + 1,
                        ));
                    }
                    count = count + 1;
                },
                None => {
                    proof {
                        assert(string@.skip(count as int).len() == 0);
                    }
                    return count;
                },
            }
        }
    }

    /// Validates a table name: a length outside 3 to 255 characters is
    /// reported first, then an invalid character.
    pub fn from_str(string: &str) -> (r: Result<TableName, InvalidTableName>)
        ensures
            match r {
                Ok(t) => t@ == string@ && valid_table_name(string@),
                Err(e) => match e {
                    InvalidTableName::TooShort => string@.len() < 3,
                    InvalidTableName::TooLong => string@.len() > 255,
                    InvalidTableName::InvalidCharacter => 3 <= string@.len() <= 255 && (exists|
                        i: int,
                    |
                        0 <= i < string@.len() && !valid_table_name_char(#[trigger] string@[i])),
                },
            },
    {
        let count = Self::char_count_capped(string);
        if count < 3 {
            return Err(InvalidTableName::TooShort);
        }
        if count > 255 {
            return Err(InvalidTableName::TooLong);
        }
        if !string.is_ascii() {
            proof {
                let i = choose|i: int|
                    0 <= i < string@.len() && !('\0' <= #[trigger] string@[i] <= '\u{7f}');
                assert(!valid_table_name_char(string@[i]));
            }
            return Err(InvalidTableName::InvalidCharacter);
        }
        proof {
            vstd::string::is_ascii_spec_bytes(string);
            vstd::utf8::is_ascii_chars_nat_bound(string@);
        }
        let bytes = string.as_bytes();
        let n = bytes.len();
        for i in 0..n
            invariant
                vstd::string::is_ascii(string),
                n == string@.len(),
                3 <= string@.len() <= 255,
                bytes@ == string.spec_bytes(),
                bytes@.len() == n,
                forall|l: int| 0 <= l < string@.len() ==> (#[trigger] string@[l] as u32) < 128,
                forall|l: int| 0 <= l < string@.len() ==> bytes@[l] == string@[l] as u8,
                forall|l: int| 0 <= l < i ==> valid_table_name_char(#[trigger] string@[l]),
        {
            let b = bytes[i];
            let ok = (b >= 0x30 && b <= 0x39) || (b >= 0x41 && b <= 0x5a) || (b >= 0x61 && b
                <= 0x7a) || b == 0x2e || b == 0x2d || b == 0x5f;
            proof {
                let c = string@[i as int];
                assert(b == c as u8 && (c as nat) < 128);
                assert(c == '.' <==> c as u32 == 0x2e) by {
                    vstd::utf8::char_u32_cast(c, c as u32);
                    vstd::utf8::char_u32_cast('.', '.' as u32);
                }
                assert(c == '-' <==> c as u32 == 0x2d) by {
                    vstd::utf8::char_u32_cast(c, c as u32);
                    vstd::utf8::char_u32_cast('-', '-' as u32);
                }
                assert(c == '_' <==> c as u32 == 0x5f) by {
                    vstd::utf8::char_u32_cast(c, c as u32);
                    vstd::utf8::char_u32_cast('_', '_' as u32);
                }
                assert(ok == valid_table_name_char(c));
            }
            if !ok {
                return Err(InvalidTableName::InvalidCharacter);
            }
        }
        Ok(TableName(string.to_owned()))
    }

    /// The validated name.
    pub fn as_ref(&self) -> (r: &String)
        ensures
            r@ == self@,
    {
        &self.0
    }
}

} // verus!
