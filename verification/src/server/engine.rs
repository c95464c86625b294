//! Which storage backend the server runs against.

use vstd::prelude::*;
use vstd::string::StrSliceExecFns;

verus! {

/// The selectable backends: this crate's log-structured store, or an
/// alternative embedded database supplied by the embedding program.
#[derive(Debug, Clone, Copy, PartialEq, Eq, Structural)]
pub enum Engine {
    Kvs,
    Sled,
}

/// ASCII-lowercase one character; other characters are unchanged.
pub open spec fn ascii_lower_char(c: char) -> char {
    if 65 <= c as u32 && c as u32 <= 90 {
        (((c as u32) + 32) as u8) as char
    } else {
        c
    }
}

/// ASCII-lowercase a character sequence.
pub open spec fn ascii_lower(s: Seq<char>) -> Seq<char> {
    s.map_values(|c: char| ascii_lower_char(c))
}

fn lower_char(c: char) -> (r: char)
    ensures
        r == ascii_lower_char(c),
{
    let u = c as u32;
    if 65 <= u && u <= 90 {
        ((u + 32) as u8) as char
    } else {
        c
    }
}

/// Does `s` spell `t` up to ASCII case?  (`t` is compared as given.)
fn eq_lower(s: &str, t: &str) -> (r: bool)
    ensures
        r == (ascii_lower(s@) == t@),
{
    let n = s.unicode_len();
    if n != t.unicode_len() {
        proof {
            assert(ascii_lower(s@).len() == s@.len());
        }
        return false;
    }
    let mut i: usize = 0;
    while i < n
        invariant
            0 <= i <= n,
            n == s@.len(),
            n == t@.len(),
            forall|j: int| 0 <= j < i ==> ascii_lower(s@)[j] == t@[j],
        decreases n - i,
    {
        let sc = lower_char(s.get_char(i));
        let tc = t.get_char(i);
        if sc != tc {
            proof {
                if ascii_lower(s@) == t@ {
                    assert(ascii_lower(s@)[i as int] == t@[i as int]);
                }
            }
            return false;
        }
        i = i + 1;
    }
    proof {
        assert(ascii_lower(s@) =~= t@);
    }
    true
}

impl Engine {
    /// Select a backend by name, ignoring ASCII case: `"kvs"` or `"sled"`.
    /// `None` for any other name.
    pub fn from_name(s: &str) -> (r: Option<Engine>)
        ensures
            r == Some(Engine::Kvs) <==> ascii_lower(s@) == "kvs"@,
            r == Some(Engine::Sled) <==> ascii_lower(s@) == "sled"@,
            r is None <==> ascii_lower(s@) != "kvs"@ && ascii_lower(s@) != "sled"@,
    {
        proof {
            reveal_strlit("kvs");
            reveal_strlit("sled");
            assert("kvs"@.len() == 3 && "sled"@.len() == 4);
        }
        if eq_lower(s, "kvs") {
            Some(Engine::Kvs)
        } else if eq_lower(s, "sled") {
            Some(Engine::Sled)
        } else {
            None
        }
    }

    /// The backend's display name.
    pub fn name(&self) -> (r: String)
        ensures
            *self is Kvs ==> r@ == "Kvs"@,
            *self is Sled ==> r@ == "Sled"@,
    {
        match self {
            Engine::Kvs => "Kvs".to_owned(),
            Engine::Sled => "Sled".to_owned(),
        }
    }
}

} // verus!
