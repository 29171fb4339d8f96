use vstd::prelude::*;
use vstd::string::StrSliceExecFns;
use vstd::string::StringExecFns;

use crate::render::dec_str;

verus! {

/// ASCII letters and digits pass through; every other character becomes an
/// underscore.
pub open spec fn c_name_char(c: char) -> char {
    if (48 <= c as u32 && c as u32 <= 57) || (65 <= c as u32 && c as u32 <= 90) || (97 <= c as u32
        && c as u32 <= 122) {
        c
    } else {
        '_'
    }
}

pub open spec fn c_name_of(s: Seq<char>) -> Seq<char> {
    Seq::new(s.len(), |i: int| c_name_char(s[i]))
}

/// Sanitises a source-language name into one a generated C function can
/// carry.
pub fn convert_to_c_fun_name(name: &str) -> (r: String)
    ensures
        r@ == c_name_of(name@),
{
    let n = name.unicode_len();
    let mut result = String::new();
    let mut i: usize = 0;
    proof {
        assert(result@ =~= c_name_of(name@).subrange(0, 0));
    }
    while i < n
        invariant
            n == name@.len(),
            i <= n,
            result@ == c_name_of(name@).subrange(0, i as int),
        decreases n - i,
    {
        let c = name.get_char(i);
        let cu = c as u32;
        if (48 <= cu && cu <= 57) || (65 <= cu && cu <= 90) || (97 <= cu && cu <= 122) {
            let piece = name.substring_char(i, i + 1);
            proof {
                assert(piece@ =~= seq![name@[i as int]]);
            }
            result.append(piece);
        } else {
            proof {
                reveal_strlit("_");
            }
            result.append("_");
        }
        proof {
            assert(result@ =~= c_name_of(name@).subrange(0, i + 1));
        }
        i += 1;
    }
    proof {
        assert(c_name_of(name@).subrange(0, n as int) =~= c_name_of(name@));
    }
    result
}

/// Hands out distinct names for generated functions, variables and labels,
/// by appending a running count to a fixed prefix.
#[derive(Debug)]
pub struct UniqueNameGenerator {
    pub function_count: usize,
    pub var_count: usize,
    pub label_count: usize,
}

impl UniqueNameGenerator {
    pub fn new() -> (r: Self)
        ensures
            r.function_count == 0,
            r.var_count == 0,
            r.label_count == 0,
    {
        Self { function_count: 0, var_count: 0, label_count: 0 }
    }

    pub fn next_function_name(&mut self) -> (r: String)
        requires
            old(self).function_count < usize::MAX,
        ensures
            r@ == "fun_"@ + dec_str(old(self).function_count as nat),
            final(self).function_count == old(self).function_count + 1,
            final(self).var_count == old(self).var_count,
            final(self).label_count == old(self).label_count,
    {
        let mut result: String = "fun_".to_owned();
        let digits = crate::render::u64_to_string(self.function_count as u64);
        result.append(digits.as_str());
        self.function_count = self.function_count + 1;
        result
    }

    pub fn next_var_name(&mut self) -> (r: String)
        requires
            old(self).var_count < usize::MAX,
        ensures
            r@ == "var_"@ + dec_str(old(self).var_count as nat),
            final(self).var_count == old(self).var_count + 1,
            final(self).function_count == old(self).function_count,
            final(self).label_count == old(self).label_count,
    {
        let mut result: String = "var_".to_owned();
        let digits = crate::render::u64_to_string(self.var_count as u64);
        result.append(digits.as_str());
        self.var_count = self.var_count + 1;
        result
    }

    pub fn next_label_name(&mut self) -> (r: String)
        requires
            old(self).label_count < usize::MAX,
        ensures
            r@ == "L"@ + dec_str(old(self).label_count as nat),
            final(self).label_count == old(self).label_count + 1,
            final(self).function_count == old(self).function_count,
            final(self).var_count == old(self).var_count,
    {
        let mut result: String = "L".to_owned();
        let digits = crate::render::u64_to_string(self.label_count as u64);
        result.append(digits.as_str());
        self.label_count = self.label_count + 1;
        result
    }
}

} // verus!
