//! A delayed formatting value: pieces of a label kept as they were given, so
//! that building the final text can wait until replay instead of costing an
//! allocation on the recording path.

use vstd::prelude::*;

use crate::text::{push_char, spec_dec, u64_to_string};

verus! {

/// A label held as up to three string pieces, or a string piece and a
/// number, concatenated only when rendered.
#[derive(Copy, Clone)]
#[non_exhaustive]
pub enum FmtStr {
    Str1(&'static str),
    Str2(&'static str, &'static str),
    Str3(&'static str, &'static str, &'static str),
    StrNum(&'static str, u64),
}

/// The text a [`FmtStr`] renders to: its pieces in order, a number as its
/// decimal numeral.
pub open spec fn spec_fmt_str_text(f: FmtStr) -> Seq<char> {
    match f {
        FmtStr::Str1(s0) => s0@,
        FmtStr::Str2(s0, s1) => s0@ + s1@,
        FmtStr::Str3(s0, s1, s2) => s0@ + s1@ + s2@,
        FmtStr::StrNum(s0, n) => s0@ + spec_dec(n as int),
    }
}

impl FmtStr {
    /// Renders the label as one string.
    pub fn to_text(&self) -> (r: String)
        ensures
            r@ == spec_fmt_str_text(*self),
    {
        let mut s = String::new();
        match *self {
            FmtStr::Str1(s0) => {
                s.append(s0);
                proof {
                    assert(s@ =~= spec_fmt_str_text(*self));
                }
            },
            FmtStr::Str2(s0, s1) => {
                s.append(s0);
                s.append(s1);
                proof {
                    assert(s@ =~= spec_fmt_str_text(*self));
                }
            },
            FmtStr::Str3(s0, s1, s2) => {
                s.append(s0);
                s.append(s1);
                s.append(s2);
                proof {
                    assert(s@ =~= spec_fmt_str_text(*self));
                }
            },
            FmtStr::StrNum(s0, n) => {
                s.append(s0);
                let num = u64_to_string(n);
                s.append(num.as_str());
                proof {
                    assert(s@ =~= spec_fmt_str_text(*self));
                }
            },
        }
        s
    }
}

impl From<&'static str> for FmtStr {
    /// A single piece is the whole label.
    fn from(value: &'static str) -> (r: Self) {
        FmtStr::Str1(value)
    }
}

impl vstd::std_specs::convert::FromSpecImpl<&'static str> for FmtStr {
    open spec fn obeys_from_spec() -> bool {
        true
    }

    open spec fn from_spec(value: &'static str) -> Self {
        FmtStr::Str1(value)
    }
}

} // verus!
