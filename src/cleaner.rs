//! Helpers of the junk-file cleaner: which names it looks for, which
//! directories it never enters, and how a breadcrumb trail becomes a path.
use vstd::prelude::*;
use vstd::string::StringExecFns;
use crate::members::path_views;

verus! {

/// `name` matches the wildcard `pattern`: `*` stands for any run of
/// characters, `?` for any one character, every other character for itself.
pub open spec fn wildcard_match(pattern: Seq<char>, name: Seq<char>) -> bool
    decreases pattern.len() + name.len(),
{
    if pattern.len() == 0 {
        name.len() == 0
    } else if pattern[0] == '*' {
        wildcard_match(pattern.drop_first(), name) || (name.len() > 0 && wildcard_match(
            pattern,
            name.drop_first(),
        ))
    } else {
        name.len() > 0 && (pattern[0] == '?' || pattern[0] == name[0]) && wildcard_match(
            pattern.drop_first(),
            name.drop_first(),
        )
    }
}

/// Relies on `wildmatch::WildMatch::new` and `WildMatch::matches`:
/// case-sensitive matching with `*` and `?` as wildcards.
#[verifier::external_body]
fn wild_matches(pattern: &str, name: &str) -> (r: bool)
    ensures
        r == wildcard_match(pattern@, name@),
{
    wildmatch::WildMatch::new(pattern).matches(name)
}

/// Whether the file name `name` matches one of `patterns`.
pub fn matches_any(name: &str, patterns: &Vec<&str>) -> (r: bool)
    ensures
        r == exists|i: int| 0 <= i < patterns@.len() && wildcard_match(#[trigger] patterns@[i]@, name@),
{
    let mut i: usize = 0;
    while i < patterns.len()
        invariant
            i <= patterns@.len(),
            forall|j: int| 0 <= j < i ==> !wildcard_match(#[trigger] patterns@[j]@, name@),
        decreases patterns.len() - i,
    {
        if wild_matches(patterns[i], name) {
            return true;
        }
        i += 1;
    }
    false
}

/// The patterns for org-mode backups, HTML backups and Finder metadata.
pub open spec fn pattern_list(org: bool, html: bool, dsstore: bool) -> Seq<Seq<char>> {
    (if org {
        seq!["*.org~"@]
    } else {
        Seq::empty()
    }) + (if html {
        seq!["*.html~"@]
    } else {
        Seq::empty()
    }) + (if dsstore {
        seq![".DS_Store"@]
    } else {
        Seq::empty()
    })
}

/// The file-name patterns of the enabled kinds, in a fixed order.
pub fn collect_patterns(org: bool, html: bool, dsstore: bool) -> (r: Vec<&'static str>)
    ensures
        r@.map_values(|s: &str| s@) == pattern_list(org, html, dsstore),
{
    let mut p: Vec<&'static str> = Vec::new();
    if org {
        p.push("*.org~");
    }
    if html {
        p.push("*.html~");
    }
    if dsstore {
        p.push(".DS_Store");
    }
    assert(p@.map_values(|s: &str| s@) =~= pattern_list(org, html, dsstore));
    p
}

/// A directory the cleaner never enters: hidden, or a dependency or build
/// output directory.
pub open spec fn ignored_name(name: Seq<char>) -> bool {
    ||| (name.len() > 0 && name[0] == '.')
    ||| name == "node_modules"@
    ||| name == "target"@
    ||| name == "dist"@
    ||| name == "build"@
}

/// Whether the cleaner skips the directory entry named `name`.
pub fn is_ignored(name: &str) -> (r: bool)
    ensures
        r == ignored_name(name@),
{
    if name.unicode_len() > 0 && name.get_char(0) == '.' {
        return true;
    }
    let owned = name.to_owned();
    owned == "node_modules".to_owned() || owned == "target".to_owned() || owned
        == "dist".to_owned() || owned == "build".to_owned()
}

/// `buf` with `part` pushed as a path component: an absolute part replaces
/// it, any other is appended after a `/` unless `buf` is empty or already
/// ends in one.
pub open spec fn pushed(buf: Seq<char>, part: Seq<char>) -> Seq<char> {
    if part.len() > 0 && part[0] == '/' {
        part
    } else if buf.len() > 0 && buf.last() != '/' {
        buf + seq!['/'] + part
    } else {
        buf + part
    }
}

/// The path that the components `parts` make, pushed in order.
pub open spec fn joined(parts: Seq<Seq<char>>) -> Seq<char>
    decreases parts.len(),
{
    if parts.len() == 0 {
        Seq::empty()
    } else {
        pushed(joined(parts.drop_last()), parts.last())
    }
}

/// The path whose components, as shown in a breadcrumb trail, are `parts`.
pub fn reconstruct_path(parts: &Vec<String>) -> (r: String)
    ensures
        r@ == joined(path_views(parts@)),
{
    let mut buf = String::new();
    let mut i: usize = 0;
    while i < parts.len()
        invariant
            i <= parts@.len(),
            buf@ == joined(path_views(parts@).take(i as int)),
        decreases parts.len() - i,
    {
        let part = parts[i].as_str();
        let ghost before = buf@;
        let plen = part.unicode_len();
        if plen > 0 && part.get_char(0) == '/' {
            buf = part.to_owned();
        } else {
            let blen = buf.as_str().unicode_len();
            if blen > 0 && buf.as_str().get_char(blen - 1) != '/' {
                buf.append("/");
                proof {
                    reveal_strlit("/");
                }
            }
            buf.append(part);
        }
        proof {
            let vs = path_views(parts@);
            assert(vs.take(i + 1).drop_last() =~= vs.take(i as int));
            assert(vs.take(i + 1).last() == part@);
            assert(buf@ =~= pushed(before, part@));
        }
        i += 1;
    }
    assert(path_views(parts@).take(parts@.len() as int) =~= path_views(parts@));
    buf
}

/// The pieces of `p` between `/` separators, empty ones included.
pub open spec fn segments(p: Seq<char>) -> Seq<Seq<char>>
    decreases p.len(),
{
    if p.len() == 0 {
        seq![Seq::empty()]
    } else {
        let s = segments(p.drop_last());
        if p.last() == '/' {
            s.push(Seq::empty())
        } else {
            s.update(s.len() - 1, s.last().push(p.last()))
        }
    }
}

/// A segment that names an entry: not empty and not `.`.
pub open spec fn named_segment(s: Seq<char>) -> bool {
    s.len() > 0 && s != seq!['.']
}

/// The segments of `segs` that name entries, in order.
pub open spec fn named(segs: Seq<Seq<char>>) -> Seq<Seq<char>>
    decreases segs.len(),
{
    if segs.len() == 0 {
        segs
    } else if named_segment(segs.last()) {
        named(segs.drop_last()).push(segs.last())
    } else {
        named(segs.drop_last())
    }
}

/// The components of the Unix path `p`: `/` for an absolute path, `.` for a
/// relative one whose first segment is `.`, then each segment that names an
/// entry.
pub open spec fn components(p: Seq<char>) -> Seq<Seq<char>> {
    (if p.len() > 0 && p[0] == '/' {
        seq![seq!['/']]
    } else if segments(p)[0] == seq!['.'] {
        seq![seq!['.']]
    } else {
        Seq::empty()
    }) + named(segments(p))
}

/// The components of `path`, one string each, as shown in a breadcrumb
/// trail.
pub fn path_to_parts(path: &str) -> (r: Vec<String>)
    ensures
        path_views(r@) == components(path@),
{
    let n = path.unicode_len();
    let absolute = n > 0 && path.get_char(0) == '/';
    let mut parts: Vec<String> = Vec::new();
    let mut first_is_dot = false;
    let mut start: usize = 0;
    let mut i: usize = 0;
    let mut n_done: usize = 0;
    let ghost mut done: Seq<Seq<char>> = Seq::empty();
    proof {
        assert(path@.take(0) =~= Seq::<char>::empty());
        assert(path@.subrange(0, 0) =~= Seq::<char>::empty());
        assert(segments(Seq::<char>::empty()) =~= done.push(Seq::<char>::empty()));
    }
    while i < n
        invariant
            n == path@.len(),
            start <= i <= n,
            n_done == done.len(),
            n_done <= i,
            segments(path@.take(i as int)) == done.push(path@.subrange(start as int, i as int)),
            path_views(parts@) == named(done),
            done.len() > 0 ==> first_is_dot == (done[0] == seq!['.']),
        decreases n - i,
    {
        proof {
            let t = path@.take(i + 1);
            assert(t.drop_last() =~= path@.take(i as int));
            assert(t.last() == path@[i as int]);
        }
        if path.get_char(i) == '/' {
            let seg = path.substring_char(start, i);
            let ghost before = done;
            proof {
                done = done.push(seg@);
                assert(done.drop_last() =~= before);
            }
            if n_done == 0 {
                first_is_dot = is_dot(seg);
            }
            n_done += 1;
            if keep_segment(seg) {
                parts.push(seg.to_owned());
                proof {
                    assert(path_views(parts@) =~= named(before).push(seg@));
                }
            }
            proof {
                assert(done[0] == if before.len() == 0 { seg@ } else { before[0] });
            }
            start = i + 1;
            proof {
                assert(path@.subrange(i + 1, i + 1) =~= Seq::<char>::empty());
            }
        } else {
            proof {
                let sub = path@.subrange(start as int, i as int);
                let s0 = done.push(sub);
                assert(path@.subrange(start as int, i + 1) =~= sub.push(path@[i as int]));
                assert(s0.update(s0.len() - 1, s0.last().push(path@[i as int])) =~= done.push(
                    sub.push(path@[i as int]),
                ));
            }
        }
        i += 1;
    }
    let last = path.substring_char(start, n);
    let ghost segs = done.push(last@);
    proof {
        assert(path@.take(n as int) =~= path@);
        assert(segs.drop_last() =~= done);
    }
    if keep_segment(last) {
        parts.push(last.to_owned());
        proof {
            assert(path_views(parts@) =~= named(done).push(last@));
        }
    }
    let dot_first = if n_done == 0 {
        is_dot(last)
    } else {
        first_is_dot
    };
    assert(dot_first == (segs[0] == seq!['.']));
    if absolute {
        let root = "/".to_owned();
        proof {
            reveal_strlit("/");
            assert(root@ =~= seq!['/']);
        }
        parts.insert(0, root);
        proof {
            assert(path_views(parts@) =~= seq![seq!['/']] + named(segs));
        }
    } else if dot_first {
        let cur = ".".to_owned();
        proof {
            reveal_strlit(".");
            assert(cur@ =~= seq!['.']);
        }
        parts.insert(0, cur);
        proof {
            assert(path_views(parts@) =~= seq![seq!['.']] + named(segs));
        }
    } else {
        proof {
            assert(path_views(parts@) =~= Seq::<Seq<char>>::empty() + named(segs));
        }
    }
    parts
}

/// Whether `s` is the single character `.`.
fn is_dot(s: &str) -> (r: bool)
    ensures
        r == (s@ == seq!['.']),
{
    let dot = ".".to_owned();
    proof {
        reveal_strlit(".");
        assert(dot@ =~= seq!['.']);
    }
    s.to_owned() == dot
}

/// Whether the segment `s` names an entry.
fn keep_segment(s: &str) -> (r: bool)
    ensures
        r == named_segment(s@),
{
    s.unicode_len() > 0 && !is_dot(s)
}

} // verus!
