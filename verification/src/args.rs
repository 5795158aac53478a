//! Options on the command line: a key and, behind it, its value.

use vstd::prelude::*;

use crate::text::{parse_usize, parsed, same_text};

verus! {

/// The text behind the first occurrence of `key`.
pub open spec fn arg_value(args: Seq<String>, key: Seq<char>) -> Option<Seq<char>>
    decreases args.len(),
{
    if args.len() == 0 {
        None
    } else if args[0]@ == key {
        if args.len() > 1 {
            Some(args[1]@)
        } else {
            None
        }
    } else {
        arg_value(args.subrange(1, args.len() as int), key)
    }
}

/// The texts that switch a flag on.
pub open spec fn is_yes(v: Seq<char>) -> bool {
    v == "1"@ || v == "on"@ || v == "true"@ || v == "yes"@
}

/// The value behind the first occurrence of `key`.
pub fn find_value<'a>(args: &'a [String], key: &str) -> (r: Option<&'a String>)
    ensures
        match r {
            Some(v) => arg_value(args@, key@) == Some(v@),
            None => arg_value(args@, key@) is None,
        },
{
    let mut i: usize = 0;
    proof {
        assert(args@.subrange(0, args@.len() as int) =~= args@);
    }
    while i < args.len()
        invariant
            i <= args@.len(),
            arg_value(args@, key@) == arg_value(args@.subrange(i as int, args@.len() as int), key@),
        decreases args@.len() - i,
    {
        let ghost rest = args@.subrange(i as int, args@.len() as int);
        assert(rest[0] == args@[i as int]);
        assert(rest.subrange(1, rest.len() as int) =~= args@.subrange(i + 1, args@.len() as int));
        if same_text(args[i].as_str(), key) {
            if i + 1 < args.len() {
                assert(rest[1] == args@[i + 1]);
                return Some(&args[i + 1]);
            }
            return None;
        }
        i = i + 1;
    }
    None
}

/// The characters of a text.
pub fn chars_of(s: &str) -> (r: Vec<char>)
    ensures
        r@ == s@,
{
    let n: usize = s.unicode_len();
    let mut r: Vec<char> = Vec::new();
    let mut i: usize = 0;
    while i < n
        invariant
            n == s@.len(),
            i <= n,
            r@ == s@.subrange(0, i as int),
        decreases n - i,
    {
        r.push(s.get_char(i));
        i = i + 1;
        assert(r@ =~= s@.subrange(0, i as int));
    }
    assert(s@.subrange(0, n as int) =~= s@);
    r
}

/// The number behind `key`, or `default` where there is none.
pub fn arg_usize(args: &[String], key: &str, default: usize) -> (r: usize)
    ensures
        r == match arg_value(args@, key@) {
            Some(v) => match parsed(v) {
                Some(n) => n,
                None => default,
            },
            None => default,
        },
{
    match find_value(args, key) {
        Some(v) => {
            let chars: Vec<char> = chars_of(v.as_str());
            match parse_usize(chars.as_slice()) {
                Some(n) => n,
                None => default,
            }
        },
        None => default,
    }
}

/// Whether the value behind `key` means yes, or `default` where there is none.
pub fn arg_flag(args: &[String], key: &str, default: bool) -> (r: bool)
    ensures
        r == match arg_value(args@, key@) {
            Some(v) => is_yes(v),
            None => default,
        },
{
    match find_value(args, key) {
        Some(v) => {
            let s: &str = v.as_str();
            same_text(s, "1") || same_text(s, "on") || same_text(s, "true") || same_text(s, "yes")
        },
        None => default,
    }
}

/// Whether `key` occurs.
pub fn has_arg(args: &[String], key: &str) -> (r: bool)
    ensures
        r == exists|i: int| 0 <= i < args@.len() && #[trigger] args@[i]@ == key@,
{
    let mut i: usize = 0;
    while i < args.len()
        invariant
            i <= args@.len(),
            forall|j: int| 0 <= j < i ==> #[trigger] args@[j]@ != key@,
        decreases args@.len() - i,
    {
        if same_text(args[i].as_str(), key) {
            assert(args@[i as int]@ == key@);
            return true;
        }
        i = i + 1;
    }
    false
}

/// An option that does not occur leaves the default.
pub proof fn lemma_absent_key(args: Seq<String>, key: Seq<char>)
    requires
        forall|i: int| 0 <= i < args.len() ==> (#[trigger] args[i])@ != key,
    ensures
        arg_value(args, key) is None,
    decreases args.len(),
{
    if args.len() > 0 {
        let rest = args.subrange(1, args.len() as int);
        assert forall|i: int| 0 <= i < rest.len() implies (#[trigger] rest[i])@ != key by {
            assert(rest[i] == args[i + 1]);
        }
        assert(args[0]@ != key);
        lemma_absent_key(rest, key);
    }
}

/// The value of an option is the text right behind its first occurrence, and
/// an option that stands last has none.
pub proof fn lemma_first_occurrence(args: Seq<String>, key: Seq<char>, k: int)
    requires
        0 <= k < args.len(),
        args[k]@ == key,
        forall|i: int| 0 <= i < k ==> (#[trigger] args[i])@ != key,
    ensures
        k + 1 < args.len() ==> arg_value(args, key) == Some(args[k + 1]@),
        k + 1 == args.len() ==> arg_value(args, key) is None,
    decreases args.len(),
{
    if k > 0 {
        let rest = args.subrange(1, args.len() as int);
        assert(args[0]@ != key);
        assert forall|i: int| 0 <= i < k - 1 implies (#[trigger] rest[i])@ != key by {
            assert(rest[i] == args[i + 1]);
        }
        assert(rest[k - 1] == args[k]);
        lemma_first_occurrence(rest, key, k - 1);
        if k + 1 < args.len() {
            assert(rest[k] == args[k + 1]);
        }
    }
}

/// Exactly these four texts switch a flag on.
pub proof fn lemma_yes_texts(v: Seq<char>)
    ensures
        is_yes("1"@) && is_yes("on"@) && is_yes("true"@) && is_yes("yes"@),
        is_yes(v) ==> 1 <= v.len() <= 4,
        v.len() == 0 || v[0] == '0' || v[0] == 'n' || v[0] == 'f' ==> !is_yes(v),
{
    reveal_strlit("1");
    reveal_strlit("on");
    reveal_strlit("true");
    reveal_strlit("yes");
}

} // verus!
