//! Which files the scanner reads: those whose extension marks a source
//! file of the scanned dialect.

use vstd::prelude::*;

verus! {

/// The index of the last occurrence of `c`, or -1.
pub open spec fn find_last(s: Seq<char>, c: char) -> int
    decreases s.len(),
{
    if s.len() == 0 {
        -1
    } else if s.last() == c {
        s.len() - 1
    } else {
        find_last(s.drop_last(), c)
    }
}

/// The last path component of `s`.
pub open spec fn file_name_of(s: Seq<char>) -> Seq<char> {
    s.skip(find_last(s, '/') + 1)
}

/// The extension of a file name: what follows the last dot, or nothing
/// when there is no dot, or when the only dot starts a hidden name.
pub open spec fn extension_of(name: Seq<char>) -> Option<Seq<char>> {
    let d = find_last(name, '.');
    if d <= 0 {
        None
    } else {
        Some(name.skip(d + 1))
    }
}

/// Whether the path names a scannable source file.
pub open spec fn spec_is_target_file(s: Seq<char>) -> bool {
    match extension_of(file_name_of(s)) {
        Some(e) => e == "ts"@ || e == "tsx"@ || e == "js"@ || e == "jsx"@,
        None => false,
    }
}

/// The index of the last occurrence of `c` among the characters.
fn find_last_exec(chars: &Vec<char>, c: char) -> (r: Option<usize>)
    ensures
        (match r {
            Some(i) => i < chars@.len() && find_last(chars@, c) == i as int,
            None => find_last(chars@, c) == -1,
        }),
{
    let n = chars.len();
    let mut i: usize = n;
    proof {
        assert(chars@.take(n as int) =~= chars@);
    }
    while i > 0
        invariant
            i <= n,
            n == chars@.len(),
            find_last(chars@, c) == find_last(chars@.take(i as int), c),
        decreases i,
    {
        if chars[i - 1] == c {
            proof {
                assert(chars@.take(i as int).last() == chars@[i - 1]);
            }
            return Some(i - 1);
        }
        proof {
            assert(chars@.take(i as int).drop_last() =~= chars@.take(i - 1 as int));
        }
        i -= 1;
    }
    proof {
        assert(chars@.take(0) =~= Seq::<char>::empty());
    }
    None
}

/// Whether the path names a scannable source file: its extension is one
/// of the source extensions of the scanned dialect.
pub fn is_target_file(path: &String) -> (r: bool)
    ensures
        r == spec_is_target_file(path@),
{
    let chars = crate::json::string_chars(path);
    let name_start: usize = match find_last_exec(&chars, '/') {
        Some(i) => i + 1,
        None => 0,
    };
    let ghost name = file_name_of(path@);
    proof {
        assert(name == path@.skip(name_start as int));
    }
    let n = chars.len();
    let mut name_chars: Vec<char> = Vec::new();
    let mut i: usize = name_start;
    proof {
        assert(name_chars@ =~= path@.subrange(name_start as int, name_start as int));
    }
    while i < n
        invariant
            name_start <= i <= n,
            n == chars@.len(),
            chars@ == path@,
            name_chars@ == path@.subrange(name_start as int, i as int),
        decreases n - i,
    {
        name_chars.push(chars[i]);
        proof {
            assert(name_chars@ =~= path@.subrange(name_start as int, i + 1 as int));
        }
        i += 1;
    }
    proof {
        assert(name_chars@ =~= name);
    }
    match find_last_exec(&name_chars, '.') {
        None => false,
        Some(d) => {
            if d == 0 {
                false
            } else {
                let ghost ext = name.skip(d + 1 as int);
                let en = name_chars.len();
                let mut ext_chars: Vec<char> = Vec::new();
                let mut j: usize = d + 1;
                proof {
                    assert(ext_chars@ =~= name.subrange(d + 1 as int, d + 1 as int));
                }
                while j < en
                    invariant
                        d + 1 <= j <= en,
                        en == name_chars@.len(),
                        name_chars@ == name,
                        ext_chars@ == name.subrange(d + 1 as int, j as int),
                    decreases en - j,
                {
                    ext_chars.push(name_chars[j]);
                    proof {
                        assert(ext_chars@ =~= name.subrange(d + 1 as int, j + 1 as int));
                    }
                    j += 1;
                }
                proof {
                    assert(ext_chars@ =~= ext);
                }
                let ext_str = crate::json::chars_to_string(&ext_chars);
                ext_str == String::from_str("ts") || ext_str == String::from_str("tsx") || ext_str
                    == String::from_str("js") || ext_str == String::from_str("jsx")
            }
        },
    }
}

} // verus!
