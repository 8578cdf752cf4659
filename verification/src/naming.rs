//! Naming rules: the object id named by a request path, and the file
//! extension derived from an uploaded filename.

use vstd::prelude::*;

verus! {

/// The object id named by a request path segment: everything before the first
/// `'.'`, or the whole segment when it holds none. A cosmetic extension a
/// client appended to the path is thereby ignored.
pub open spec fn id_of_path(path: Seq<char>) -> Seq<char>
    decreases path.len(),
{
    if path.len() == 0 {
        path
    } else if path[0] == '.' {
        Seq::empty()
    } else {
        seq![path[0]] + id_of_path(path.drop_first())
    }
}

/// `id_of_path` cuts exactly at the first dot.
proof fn lemma_id_of_path_prefix(p: Seq<char>, i: int)
    requires
        0 <= i <= p.len(),
        forall|j: int| 0 <= j < i ==> p[j] != '.',
        i < p.len() ==> p[i] == '.',
    ensures
        id_of_path(p) == p.subrange(0, i),
    decreases i,
{
    if i == 0 {
        if p.len() == 0 {
            assert(id_of_path(p) =~= p.subrange(0, 0));
        } else {
            assert(p[0] == '.');
            assert(id_of_path(p) =~= p.subrange(0, 0));
        }
    } else {
        assert(p[0] != '.');
        let rest = p.drop_first();
        assert(forall|j: int| 0 <= j < i - 1 ==> rest[j] == p[j + 1]);
        assert(i - 1 < rest.len() ==> rest[i - 1] == p[i]);
        lemma_id_of_path_prefix(rest, i - 1);
        assert(id_of_path(p) == seq![p[0]] + rest.subrange(0, i - 1));
        assert(seq![p[0]] + rest.subrange(0, i - 1) =~= p.subrange(0, i));
    }
}

/// Strips everything from the first dot onward: the id a request path names.
pub fn strip_path_id(path: &str) -> (r: String)
    ensures
        r@ == id_of_path(path@),
{
    let n = path.unicode_len();
    let mut i: usize = 0;
    while i < n && path.get_char(i) != '.'
        invariant
            n == path@.len(),
            i <= n,
            forall|j: int| 0 <= j < i ==> path@[j] != '.',
        decreases n - i,
    {
        i += 1;
    }
    let s = path.substring_char(0, i);
    proof {
        lemma_id_of_path_prefix(path@, i as int);
    }
    String::from_str(s)
}

/// The extension scan, carrying the characters already passed over: once the
/// last dot of `name` is reached, the extension is that dot plus `tail`.
pub open spec fn extension_scan(name: Seq<char>, tail: Seq<char>) -> Seq<char>
    decreases name.len(),
{
    if name.len() == 0 {
        Seq::empty()
    } else if name.last() == '.' {
        seq!['.'] + tail
    } else {
        extension_scan(name.drop_last(), seq![name.last()] + tail)
    }
}

/// The extension recorded for an uploaded filename: a dot followed by
/// everything after the name's last dot, or empty when the name has no dot.
/// A name without a dot — a single segment — deliberately yields no
/// extension, and a name ending in a dot yields just the dot.
pub open spec fn extension_of(name: Seq<char>) -> Seq<char> {
    extension_scan(name, Seq::empty())
}

/// A name without dots has no extension, whatever the scan has passed over.
proof fn lemma_extension_scan_none(name: Seq<char>, tail: Seq<char>)
    requires
        forall|j: int| 0 <= j < name.len() ==> name[j] != '.',
    ensures
        extension_scan(name, tail) == Seq::<char>::empty(),
    decreases name.len(),
{
    if name.len() > 0 {
        assert(name.last() != '.');
        let rest = name.drop_last();
        assert(forall|j: int| 0 <= j < rest.len() ==> rest[j] == name[j]);
        lemma_extension_scan_none(rest, seq![name.last()] + tail);
    }
}

/// The scan stops exactly at the last dot of the name.
proof fn lemma_extension_scan_at(name: Seq<char>, tail: Seq<char>, d: int)
    requires
        0 <= d < name.len(),
        name[d] == '.',
        forall|j: int| d < j < name.len() ==> name[j] != '.',
    ensures
        extension_scan(name, tail) == seq!['.'] + name.subrange(d + 1, name.len() as int) + tail,
    decreases name.len(),
{
    if d == name.len() - 1 {
        assert(name.last() == '.');
        assert(name.subrange(d + 1, name.len() as int) =~= Seq::<char>::empty());
        assert(seq!['.'] + name.subrange(d + 1, name.len() as int) + tail =~= seq!['.'] + tail);
    } else {
        assert(name.last() != '.');
        let rest = name.drop_last();
        assert(forall|j: int| d < j < rest.len() ==> rest[j] == name[j]);
        assert(rest[d] == name[d]);
        lemma_extension_scan_at(rest, seq![name.last()] + tail, d);
        assert(seq!['.'] + rest.subrange(d + 1, rest.len() as int) + (seq![name.last()] + tail)
            =~= seq!['.'] + name.subrange(d + 1, name.len() as int) + tail);
    }
}

/// Derives the stored file extension from an uploaded filename.
pub fn file_extension_of(name: &str) -> (r: String)
    ensures
        r@ == extension_of(name@),
{
    let n = name.unicode_len();
    // scan backwards for the last dot
    let mut i: usize = n;
    while i > 0 && name.get_char(i - 1) != '.'
        invariant
            n == name@.len(),
            i <= n,
            forall|j: int| i <= j < n ==> name@[j] != '.',
        decreases i,
    {
        i -= 1;
    }
    if i == 0 {
        proof {
            lemma_extension_scan_none(name@, Seq::<char>::empty());
        }
        String::new()
    } else {
        let suffix = name.substring_char(i, n);
        let mut r = String::from_str(".");
        r.append(suffix);
        proof {
            reveal_strlit(".");
            assert("."@ =~= seq!['.']);
            lemma_extension_scan_at(name@, Seq::<char>::empty(), i - 1);
            assert(r@ =~= extension_of(name@));
        }
        r
    }
}

/// A path made of a dot-free id with a cosmetic extension appended names the
/// same id as the bare path: retrieval cannot tell the two apart.
pub proof fn lemma_path_extension_ignored(id: Seq<char>, suffix: Seq<char>)
    requires
        forall|j: int| 0 <= j < id.len() ==> id[j] != '.',
        suffix.len() > 0 ==> suffix[0] == '.',
    ensures
        id_of_path(id + suffix) == id,
        id_of_path(id) == id,
{
    lemma_id_of_path_prefix(id, id.len() as int);
    assert(id.subrange(0, id.len() as int) =~= id);
    if suffix.len() > 0 {
        let p = id + suffix;
        assert(forall|j: int| 0 <= j < id.len() ==> p[j] == id[j]);
        assert(p[id.len() as int] == suffix[0]);
        lemma_id_of_path_prefix(p, id.len() as int);
        assert(p.subrange(0, id.len() as int) =~= id);
    } else {
        assert(id + suffix =~= id);
    }
}

} // verus!
