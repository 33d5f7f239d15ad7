//! Paths: `/`-separated names resolved from the root directory or from a
//! current working directory.
use vstd::prelude::*;
use crate::c_dirs_support::{
    is_dirname, valid_dirname, EsFS3, DirectoryError, data_readable, dir_entry, entry_at,
    entry_bytes, entry_count, find_free, find_name, link_offset, link_ready, dir_on_disk, lookup_index, name_text, name_written, new_entry,
    root_dinode, with_nlink, lemma_inode_put_frame,
};
use crate::types::{DInodeView, DirEntry, FType, Inode, SuperBlock, DIRENTRY_SIZE, SUPERBLOCK_SIZE, superblock_at};
use crate::blocks::{Block, Buffer, Device, zeros};
use crate::a_block_support::{
    sb_usable, sb_fits_device, ceil_div,
    BlockError, bitmap_bit, disk_with_bit, disk_with_zero_block, inodes_per_block, sb_valid_spec,
};
use crate::b_inode_support::{
    InodeError, inode_block_of, blocks_to_free, disk_inode, free_all, free_count, free_dinode, free_inode, inode_in_range,
    inode_usable, inode_written, no_blocks, used_inode,
};
use crate::e_inode_rw_support::{pieces_on_device, InodeRWError, all_present, blocks_spanned, bytes_to_read, file_byte, ptr, reads_ok};
use crate::write_model::{write_meets_ok, write_met_done, blocks_sound, blocks_in_data, held, free_below, missing_ptrs, pointed, write_done, write_range_count, meetable, met_sound, out_of_reach};

verus! {

/// Character `c` at position `i` of `s` is a `/`.
pub open spec fn slash_at(s: Seq<char>, i: int) -> bool {
    0 <= i < s.len() && s[i] == '/'
}

/// No `/` lies strictly between positions `i` and `j` of `s`.
pub open spec fn no_slash_between(s: Seq<char>, i: int, j: int) -> bool {
    forall|k: int| i < k < j ==> s[k] != '/'
}

/// The characters strictly between positions `i` and `j` of `s`.
pub open spec fn segment(s: Seq<char>, i: int, j: int) -> Seq<char> {
    s.subrange(i + 1, j)
}

/// From position `p` on, `s` is `/` alone, or a series of `/name` with valid
/// entry names.
pub open spec fn slashes_ok(s: Seq<char>, p: int) -> bool {
    &&& slash_at(s, p)
    &&& s.len() == p + 1 || forall|i: int, j: int|
        p <= i < j <= s.len() && slash_at(s, i) && (j == s.len() || slash_at(s, j)) && no_slash_between(s, i, j)
            ==> valid_dirname(#[trigger] segment(s, i, j))
}

/// A valid path: `.` or `..`; or none, one or two dots followed by `/` alone
/// or by a series of `/name` with valid entry names.
pub open spec fn path_ok(s: Seq<char>) -> bool {
    ||| s == seq!['.']
    ||| s == seq!['.', '.']
    ||| exists|p: int| 0 <= p <= 2 && (forall|i: int| 0 <= i < p ==> s[i] == '.') && #[trigger] slashes_ok(s, p)
}

/// The nonempty pieces of `s` between `/`s, in order.
pub open spec fn pieces(s: Seq<char>) -> Seq<Seq<char>>
    decreases s.len(),
{
    if s.len() == 0 {
        seq![]
    } else {
        let p = pieces(s.drop_last());
        let c = s.last();
        if c == '/' {
            p
        } else if s.len() >= 2 && s[s.len() - 2] != '/' {
            p.update(p.len() - 1, p.last().push(c))
        } else {
            p.push(seq![c])
        }
    }
}

/// The texts of a sequence of string slices.
pub open spec fn str_views(v: Seq<&str>) -> Seq<Seq<char>> {
    Seq::new(v.len(), |i: int| v[i]@)
}

/// The texts of a sequence of strings.
pub open spec fn string_views(v: Seq<String>) -> Seq<Seq<char>> {
    Seq::new(v.len(), |i: int| v[i]@)
}

/// The last piece of a path is no longer than the path, and shorter by at
/// least one `/` when there are two pieces or more.
pub proof fn lemma_pieces_last(s: Seq<char>)
    ensures
        pieces(s).len() >= 1 ==> pieces(s).last().len() <= s.len(),
        pieces(s).len() >= 2 ==> pieces(s).last().len() + 1 <= s.len(),
        pieces(s).len() >= 1 && s.len() >= 1 && s.last() != '/' ==> pieces(s).last().len() >= 1,
    decreases s.len(),
{
    if s.len() > 0 {
        lemma_pieces_last(s.drop_last());
        let p = pieces(s.drop_last());
        if s.last() != '/' && s.len() >= 2 && s[s.len() - 2] != '/' {
            lemma_pieces_nonempty(s.drop_last());
        }
    }
}

/// A text that ends in a character other than `/` has at least one piece.
pub proof fn lemma_pieces_nonempty(s: Seq<char>)
    requires
        s.len() >= 1,
        s.last() != '/',
    ensures
        pieces(s).len() >= 1,
    decreases s.len(),
{
    if s.len() >= 2 && s[s.len() - 2] != '/' {
        lemma_pieces_nonempty(s.drop_last());
    }
}

/// Whether `s` is `.`.
fn is_dot(s: &str) -> (r: bool)
    ensures
        r == (s@ == seq!['.']),
{
    if s.unicode_len() == 1 && s.get_char(0) == '.' {
        assert(s@ =~= seq!['.']);
        true
    } else {
        assert(s@.len() != 1 || s@[0] != '.');
        false
    }
}

/// Whether `s` is `..`.
fn is_dotdot(s: &str) -> (r: bool)
    ensures
        r == (s@ == seq!['.', '.']),
{
    if s.unicode_len() == 2 && s.get_char(0) == '.' && s.get_char(1) == '.' {
        assert(s@ =~= seq!['.', '.']);
        true
    } else {
        assert(s@.len() != 2 || s@[0] != '.' || s@[1] != '.');
        false
    }
}

/// Whether `path` is a valid path (see [`path_ok`]).
pub fn is_valid_path(path: &str) -> (r: bool)
    ensures
        r == path_ok(path@),
{
    let ghost s = path@;
    if is_dot(path) || is_dotdot(path) {
        return true;
    }
    let n = path.unicode_len();
    let mut p: usize = 0;
    while p < n && p < 3 && path.get_char(p) == '.'
        invariant
            s == path@,
            n == s.len(),
            p <= n,
            p <= 3,
            forall|i: int| 0 <= i < p ==> s[i] == '.',
        decreases n - p,
    {
        p = p + 1;
    }
    if p >= n || p > 2 || path.get_char(p) != '/' {
        proof {
            assert forall|q: int| 0 <= q <= 2 && (forall|i: int| 0 <= i < q ==> s[i] == '.') implies !#[trigger] slashes_ok(s, q) by {
                if slashes_ok(s, q) {
                    if q < p {
                        assert(s[q] == '.');
                    } else if q > p {
                        assert(s[p as int] == '.');
                    }
                }
            }
        }
        return false;
    }
    proof {
        assert(s != seq!['.']);
        assert(s != seq!['.', '.']);
    }
    if p + 1 == n {
        assert(slashes_ok(s, p as int));
        return true;
    }
    let mut start: usize = p;
    loop
        invariant
            s == path@,
            n == s.len(),
            p <= start < n,
            p <= 2,
            p + 1 < n,
            slash_at(s, start as int),
            slash_at(s, p as int),
            forall|i: int| 0 <= i < p ==> s[i] == '.',
            forall|i: int, j: int|
                p <= i < j <= start && slash_at(s, i) && (j == s.len() || slash_at(s, j)) && no_slash_between(s, i, j)
                    ==> valid_dirname(#[trigger] segment(s, i, j)),
        decreases n - start,
    {
        let mut j: usize = start + 1;
        while j < n && path.get_char(j) != '/'
            invariant
                s == path@,
                n == s.len(),
                start < j <= n,
                no_slash_between(s, start as int, j as int),
            decreases n - j,
        {
            j = j + 1;
        }
        let seg = path.substring_char(start + 1, j);
        proof {
            assert(seg@ == segment(s, start as int, j as int));
        }
        if !is_dirname(seg) {
            proof {
                assert forall|q: int| 0 <= q <= 2 && (forall|i: int| 0 <= i < q ==> s[i] == '.') implies !#[trigger] slashes_ok(s, q) by {
                    if q < p {
                        assert(s[q] == '.');
                    } else if q > p {
                        assert(s[p as int] == '.');
                    }
                    if q == p {
                        assert(!valid_dirname(segment(s, start as int, j as int)));
                    }
                }
            }
            return false;
        }
        if j == n {
            proof {
                assert forall|i: int, k: int|
                    p <= i < k <= s.len() && slash_at(s, i) && (k == s.len() || slash_at(s, k)) && no_slash_between(s, i, k)
                    implies valid_dirname(#[trigger] segment(s, i, k)) by {
                    if k > start {
                        if i < start {
                            assert(s[start as int] == '/');
                        } else if i > start {
                            assert(s[i] == '/');
                        } else {
                            if k < j {
                                assert(s[k] == '/');
                            }
                        }
                    }
                }
                assert(slashes_ok(s, p as int));
            }
            return true;
        }
        proof {
            assert forall|i: int, k: int|
                p <= i < k <= j && slash_at(s, i) && (k == s.len() || slash_at(s, k)) && no_slash_between(s, i, k)
                implies valid_dirname(#[trigger] segment(s, i, k)) by {
                if k > start {
                    if i < start {
                        assert(s[start as int] == '/');
                    } else if i > start {
                        assert(s[i] == '/');
                    } else {
                        if k < j {
                            assert(s[k] == '/');
                        }
                    }
                }
            }
        }
        start = j;
    }
}

/// The nonempty pieces of `path` between `/`s, when `path` is a valid path.
pub fn into_dirnames(path: &str) -> (r: Option<Vec<&str>>)
    ensures
        r is Some <==> path_ok(path@),
        r matches Some(v) ==> str_views(v@) == pieces(path@),
{
    if !is_valid_path(path) {
        return None;
    }
    let ghost s = path@;
    let n = path.unicode_len();
    let mut dirnames: Vec<&str> = Vec::new();
    let mut start: usize = 0;
    let mut i: usize = 0;
    while i < n
        invariant
            s == path@,
            n == s.len(),
            start <= i <= n,
            start == 0 || s[start - 1] == '/',
            no_slash_between(s, start - 1, i as int),
            str_views(dirnames@) + (if start < i { seq![s.subrange(start as int, i as int)] } else { seq![] })
                == pieces(s.subrange(0, i as int)),
        decreases n - i,
    {
        let ghost t = s.subrange(0, i + 1);
        proof {
            assert(t.drop_last() =~= s.subrange(0, i as int));
        }
        if path.get_char(i) == '/' {
            if start < i {
                let piece = path.substring_char(start, i);
                dirnames.push(piece);
                assert(str_views(dirnames@) =~= str_views(dirnames@.drop_last()).push(piece@));
            }
            start = i + 1;
        } else {
            proof {
                if i >= 1 && s[i - 1] != '/' {
                    assert(start < i);
                    assert(s.subrange(start as int, i + 1) =~= s.subrange(start as int, i as int).push(s[i as int]));
                } else {
                    assert(start == i);
                    assert(s.subrange(start as int, i + 1) =~= seq![s[i as int]]);
                }
            }
        }
        i = i + 1;
        proof {
            assert(no_slash_between(s, start - 1, i as int));
        }
    }
    if start < n {
        let piece = path.substring_char(start, n);
        dirnames.push(piece);
        assert(str_views(dirnames@) =~= str_views(dirnames@.drop_last()).push(piece@));
    }
    assert(s.subrange(0, n as int) =~= s);
    Some(dirnames)
}


/// The entry name split off a path and the path to its parent: for two
/// pieces or more, the path up to the `/` before the last piece and the last
/// piece; for one piece, that piece and, as its parent, `/` when the path
/// starts at the root and the empty path otherwise.
pub open spec fn parent_and_entry(s: Seq<char>) -> (Seq<char>, Seq<char>) {
    let ps = pieces(s);
    if ps.len() > 1 {
        (s.subrange(0, s.len() - ps.last().len() - 1), ps.last())
    } else if s.len() > 0 && s[0] == '/' {
        (seq!['/'], ps[0])
    } else {
        (seq![], ps[0])
    }
}

/// Splits `path` into the path to the parent and the last entry name (see
/// [`parent_and_entry`]); `None` when `path` is not a valid path, or is `/`
/// alone, which names no entry.
pub fn split_parent_entry(path: &str) -> (r: Option<(&str, &str)>)
    ensures
        r is Some <==> path_ok(path@) && pieces(path@).len() > 0,
        r matches Some((a, b)) ==> (a@, b@) == parent_and_entry(path@),
{
    let names = match into_dirnames(path) {
        Some(v) => v,
        None => return None,
    };
    if names.len() == 0 {
        return None;
    }
    proof {
        lemma_pieces_last(path@);
        assert(str_views(names@)[names@.len() - 1] == names@[names@.len() - 1]@);
    }
    if names.len() > 1 {
        let last = names[names.len() - 1];
        let plen = path.unicode_len() - last.unicode_len() - 1;
        let prefix = path.substring_char(0, plen);
        Some((prefix, last))
    } else {
        proof {
            assert(str_views(names@)[0] == names@[0]@);
        }
        if path.get_char(0) == '/' {
            let root = path.substring_char(0, 1);
            assert(root@ =~= seq!['/']);
            Some((root, names[0]))
        } else {
            proof {
                reveal_strlit("");
            }
            Some(("", names[0]))
        }
    }
}

/// Walking the names `names` from the list of directory names `base`: `.`
/// stays, `..` drops the last name (none at the root), any other name is
/// added.
pub open spec fn flatten_from(base: Seq<Seq<char>>, names: Seq<Seq<char>>) -> Seq<Seq<char>>
    decreases names.len(),
{
    if names.len() == 0 {
        base
    } else {
        let prev = flatten_from(base, names.drop_last());
        let n = names.last();
        if n == seq!['.'] {
            prev
        } else if n == seq!['.', '.'] {
            if prev.len() > 0 {
                prev.drop_last()
            } else {
                prev
            }
        } else {
            prev.push(n)
        }
    }
}

/// The directory names a path's pieces lead to: from `cwd` when the first
/// piece is `.` or `..`, else from the root.
pub open spec fn flatten(cwd: Seq<Seq<char>>, names: Seq<Seq<char>>) -> Seq<Seq<char>> {
    flatten_from(
        if names[0] == seq!['.'] || names[0] == seq!['.', '.'] {
            cwd
        } else {
            seq![]
        },
        names,
    )
}

/// The names of `c` each preceded by `/`.
pub open spec fn joined(c: Seq<Seq<char>>) -> Seq<char>
    decreases c.len(),
{
    if c.len() == 0 {
        seq![]
    } else {
        joined(c.drop_last()) + seq!['/'] + c.last()
    }
}

/// The text of a working directory: `/` for the root, else its names each
/// preceded by `/`.
pub open spec fn cwd_text(c: Seq<Seq<char>>) -> Seq<char> {
    if c.len() == 0 {
        seq!['/']
    } else {
        joined(c)
    }
}

/// A name of a working directory: a valid entry name other than `.` and `..`.
pub open spec fn cwd_name(n: Seq<char>) -> bool {
    valid_dirname(n) && n != seq!['.'] && n != seq!['.', '.']
}

/// Walking valid names from a list of working-directory names gives a list
/// of working-directory names.
pub proof fn lemma_flatten_cwd_names(base: Seq<Seq<char>>, names: Seq<Seq<char>>)
    requires
        forall|i: int| 0 <= i < base.len() ==> cwd_name(#[trigger] base[i]),
        forall|i: int| 0 <= i < names.len() ==> valid_dirname(#[trigger] names[i]),
    ensures
        forall|i: int| 0 <= i < flatten_from(base, names).len() ==> cwd_name(#[trigger] flatten_from(base, names)[i]),
    decreases names.len(),
{
    if names.len() > 0 {
        let t = names.drop_last();
        assert forall|i: int| 0 <= i < t.len() implies valid_dirname(#[trigger] t[i]) by {
            assert(t[i] == names[i]);
        }
        lemma_flatten_cwd_names(base, t);
        let prev = flatten_from(base, t);
        assert(valid_dirname(names[names.len() - 1]));
        let f = flatten_from(base, names);
        assert forall|i: int| 0 <= i < f.len() implies cwd_name(#[trigger] f[i]) by {
            if i < prev.len() {
                assert(f[i] == prev[i]);
            }
        }
    }
}

/// A valid name holds no `/`.
proof fn lemma_name_no_slash(n: Seq<char>)
    requires
        cwd_name(n),
    ensures
        n.len() >= 1,
        forall|k: int| 0 <= k < n.len() ==> n[k] != '/',
{
    assert forall|k: int| 0 <= k < n.len() implies n[k] != '/' by {
        assert(crate::c_dirs_support::is_alnum(n[k]));
    }
}

/// The pieces of a text followed by `/` and a name are its pieces and the name.
proof fn lemma_pieces_append(s: Seq<char>, w: Seq<char>)
    requires
        w.len() >= 1,
        forall|k: int| 0 <= k < w.len() ==> w[k] != '/',
    ensures
        pieces(s + seq!['/'] + w) == pieces(s).push(w),
    decreases w.len(),
{
    let t = s + seq!['/'] + w;
    assert(t.drop_last() =~= s + seq!['/'] + w.drop_last());
    assert(t.last() == w.last());
    assert(t.len() >= 2);
    if w.len() == 1 {
        let u = s + seq!['/'];
        assert(s + seq!['/'] + w.drop_last() =~= u);
        assert(u.drop_last() =~= s);
        assert(u.last() == '/');
        assert(pieces(u) == pieces(s));
        assert(t[t.len() - 2] == '/');
        assert(w =~= seq![w.last()]);
        assert(pieces(t) == pieces(u).push(seq![t.last()]));
    } else {
        lemma_pieces_append(s, w.drop_last());
        assert(t[t.len() - 2] == w[w.len() - 2]);
        let p = pieces(t.drop_last());
        assert(p == pieces(s).push(w.drop_last()));
        assert(pieces(t) == p.update(p.len() - 1, p.last().push(t.last())));
        assert(w.drop_last().push(w.last()) =~= w);
        assert(p.update(p.len() - 1, p.last().push(t.last())) =~= pieces(s).push(w));
    }
}

/// The pieces of the text of a working directory are its names.
proof fn lemma_pieces_joined(c: Seq<Seq<char>>)
    requires
        forall|i: int| 0 <= i < c.len() ==> cwd_name(#[trigger] c[i]),
    ensures
        pieces(joined(c)) == c,
    decreases c.len(),
{
    if c.len() > 0 {
        lemma_pieces_joined(c.drop_last());
        lemma_name_no_slash(c.last());
        lemma_pieces_append(joined(c.drop_last()), c.last());
        assert(c.drop_last().push(c.last()) == c);
    }
}

/// The text of a nonempty working directory starts with `/`, and every name
/// between two `/` (or a `/` and the end) in it is a valid name.
proof fn lemma_joined_slashes(c: Seq<Seq<char>>)
    requires
        c.len() >= 1,
        forall|i: int| 0 <= i < c.len() ==> cwd_name(#[trigger] c[i]),
    ensures
        slashes_ok(joined(c), 0),
    decreases c.len(),
{
    let s = joined(c);
    let j0 = joined(c.drop_last());
    let w = c.last();
    let m = j0.len() as int;
    lemma_name_no_slash(w);
    assert(s == j0 + seq!['/'] + w);
    assert(s[m] == '/');
    if c.len() == 1 {
        assert(j0 == Seq::<char>::empty());
        assert forall|i: int, j: int|
            0 <= i < j <= s.len() && slash_at(s, i) && (j == s.len() || slash_at(s, j)) && no_slash_between(s, i, j)
            implies valid_dirname(#[trigger] segment(s, i, j)) by {
            assert(i == 0);
            assert(j == s.len());
            assert(segment(s, i, j) =~= w);
        }
    } else {
        lemma_joined_slashes(c.drop_last());
        assert(j0.len() >= 1);
        assert forall|i: int, j: int|
            0 <= i < j <= s.len() && slash_at(s, i) && (j == s.len() || slash_at(s, j)) && no_slash_between(s, i, j)
            implies valid_dirname(#[trigger] segment(s, i, j)) by {
            if i < m {
                if j > m {
                    assert(s[m] == '/');
                } else {
                    assert(slash_at(j0, i));
                    assert(j == m || slash_at(j0, j));
                    assert forall|k: int| i < k < j implies j0[k] != '/' by {
                        assert(s[k] == j0[k]);
                    }
                    assert(no_slash_between(j0, i, j));
                    assert(segment(s, i, j) =~= segment(j0, i, j));
                    assert(j0.len() != 1);
                    assert(valid_dirname(segment(j0, i, j)));
                }
            } else if i == m {
                if j < s.len() {
                    assert(s[j] == w[j - m - 1]);
                }
                assert(j == s.len());
                assert(segment(s, i, j) =~= w);
            } else {
                assert(s[i] == w[i - m - 1]);
            }
        }
    }
}

/// Flattening names that hold no `.` or `..` from the root keeps them.
proof fn lemma_flatten_names(c: Seq<Seq<char>>)
    requires
        forall|i: int| 0 <= i < c.len() ==> cwd_name(#[trigger] c[i]),
    ensures
        flatten_from(seq![], c) == c,
    decreases c.len(),
{
    if c.len() > 0 {
        lemma_flatten_names(c.drop_last());
        assert(c.drop_last().push(c.last()) == c);
    }
}

/// Going back to the working directory by its text: for a working directory
/// of valid names other than `.` and `..` (as that of every well-formed file
/// system is, see [`EsFS4::cwd_ok`]), the text that `get_cwd` gives is a valid
/// path, and `set_cwd` with it, from any working directory, sets the same
/// working directory again.
pub proof fn lemma_cwd_round_trip(c: Seq<Seq<char>>, other: Seq<Seq<char>>)
    requires
        forall|i: int| 0 <= i < c.len() ==> cwd_name(#[trigger] c[i]),
    ensures
        path_ok(cwd_text(c)),
        (if pieces(cwd_text(c)).len() == 0 {
            seq![]
        } else {
            flatten(other, pieces(cwd_text(c)))
        }) == c,
{
    if c.len() == 0 {
        let s = seq!['/'];
        assert(slashes_ok(s, 0));
        assert(forall|i: int| 0 <= i < 0 ==> s[i] == '.');
        assert(path_ok(s));
        assert(s.drop_last() =~= Seq::<char>::empty());
        assert(pieces(Seq::<char>::empty()) == Seq::<Seq<char>>::empty());
        assert(s.last() == '/');
        assert(pieces(s) == pieces(s.drop_last()));
        assert(pieces(s) == Seq::<Seq<char>>::empty());
    } else {
        lemma_joined_slashes(c);
        assert(forall|i: int| 0 <= i < 0 ==> joined(c)[i] == '.');
        assert(path_ok(joined(c)));
        lemma_pieces_joined(c);
        lemma_flatten_names(c);
        assert(cwd_name(c[0]));
    }
}

/// Errors of path operations.
#[derive(Debug)]
pub enum PathError {
    /// Error during initialisation of the file system.
    Init(&'static str),
    /// The path is not valid.
    Path(&'static str),
    /// Error while resolving a path.
    Lookup(String),
    /// Error while removing an entry.
    Unlink(&'static str),
    /// Error raised by the layers underneath.
    Backend(crate::c_dirs_support::DirectoryError),
}

/// The file system type of this layer, under the name the other layers and
/// the tests use for it.
pub type FSName = EsFS4;

/// A file system supporting paths, with a current working directory.
pub struct EsFS4 {
    dfs: EsFS3,
    cwd: Vec<String>,
}

impl EsFS4 {
    /// The current working directory, as the names of the directories from the root.
    pub closed spec fn cwd(&self) -> Seq<Seq<char>> {
        string_views(self.cwd@)
    }

    /// The directory layer underneath.
    pub closed spec fn dirs(&self) -> EsFS3 {
        self.dfs
    }

    /// Whether `path` is a valid path (see [`path_ok`]).
    pub fn valid_path(path: &str) -> (r: bool)
        ensures
            r == path_ok(path@),
    {
        is_valid_path(path)
    }

    /// The directory names that the pieces `dirnames` of a path lead to (see
    /// [`flatten`]).
    pub fn flatten_path(&self, dirnames: Vec<&str>) -> (r: Vec<String>)
        requires
            dirnames@.len() > 0,
        ensures
            string_views(r@) == flatten(self.cwd(), str_views(dirnames@)),
    {
        let ghost names = str_views(dirnames@);
        let mut path: Vec<String> = Vec::new();
        if is_dot(dirnames[0]) || is_dotdot(dirnames[0]) {
            let mut k: usize = 0;
            while k < self.cwd.len()
                invariant
                    k <= self.cwd@.len(),
                    string_views(path@) == string_views(self.cwd@).subrange(0, k as int),
                decreases self.cwd@.len() - k,
            {
                let name = self.cwd[k].clone();
                assert(name@ == self.cwd@[k as int]@);
                let ghost old_path = path@;
                assert(string_views(old_path).len() == old_path.len());
                assert(string_views(self.cwd@).subrange(0, k as int).len() == k);
                assert(old_path.len() == k);
                path.push(name);
                proof {
                    assert forall|j: int| 0 <= j < k implies #[trigger] path@[j]@ == self.cwd@[j]@ by {
                        assert(old_path[j]@ == string_views(old_path)[j]);
                    }
                }
                k = k + 1;
                assert(string_views(path@) =~= string_views(self.cwd@).subrange(0, k as int));
            }
            assert(string_views(self.cwd@).subrange(0, k as int) =~= string_views(self.cwd@));
        }
        let ghost base = string_views(path@);
        proof {
            assert(names[0] == dirnames@[0]@);
            assert(flatten_from(base, names.subrange(0, 0)) == base);
        }
        let mut i: usize = 0;
        while i < dirnames.len()
            invariant
                i <= dirnames@.len(),
                names == str_views(dirnames@),
                string_views(path@) == flatten_from(base, names.subrange(0, i as int)),
                base == (if names[0] == seq!['.'] || names[0] == seq!['.', '.'] { string_views(self.cwd@) } else { seq![] }),
            decreases dirnames@.len() - i,
        {
            let dirname = dirnames[i];
            proof {
                assert(names.subrange(0, i + 1).drop_last() =~= names.subrange(0, i as int));
                assert(names.subrange(0, i + 1).last() == dirname@);
            }
            if is_dot(dirname) {
            } else if is_dotdot(dirname) {
                let _ = path.pop();
                proof {
                    assert(string_views(path@) =~= flatten_from(base, names.subrange(0, i + 1)));
                }
            } else {
                path.push(dirname.to_owned());
                proof {
                    assert(string_views(path@) =~= flatten_from(base, names.subrange(0, i + 1)));
                }
            }
            i = i + 1;
        }
        assert(names.subrange(0, i as int) =~= names);
        path
    }

    /// The current working directory as text (see [`cwd_text`]).
    pub fn get_cwd(&self) -> (r: String)
        ensures
            r@ == cwd_text(self.cwd()),
    {
        let mut cwd_string = String::new();
        proof {
            reveal_strlit("/");
        }
        if self.cwd.len() == 0 {
            cwd_string.append("/");
            assert(cwd_string@ =~= seq!['/']);
            return cwd_string;
        }
        let ghost c = string_views(self.cwd@);
        let mut k: usize = 0;
        while k < self.cwd.len()
            invariant
                k <= self.cwd@.len(),
                c == string_views(self.cwd@),
                cwd_string@ == joined(c.subrange(0, k as int)),
                ("/")@ == seq!['/'],
            decreases self.cwd@.len() - k,
        {
            cwd_string.append("/");
            let dn = self.cwd[k].as_str();
            cwd_string.append(dn);
            proof {
                assert(c.subrange(0, k + 1).drop_last() =~= c.subrange(0, k as int));
                assert(c.subrange(0, k + 1).last() == dn@);
                assert(cwd_string@ =~= joined(c.subrange(0, k + 1)));
            }
            k = k + 1;
        }
        assert(c.subrange(0, k as int) =~= c);
        cwd_string
    }

    /// Changes the working directory to the one `path` leads to (see
    /// [`flatten`]; the root for a path with no pieces); `None`, changing
    /// nothing, when `path` is not a valid path.
    pub fn set_cwd(&mut self, path: &str) -> (r: Option<()>)
        ensures
            r is Some <==> path_ok(path@),
            final(self).dirs() == old(self).dirs(),
            r is Some ==> final(self).cwd() == if pieces(path@).len() == 0 {
                seq![]
            } else {
                flatten(old(self).cwd(), pieces(path@))
            },
            r is None ==> final(self).cwd() == old(self).cwd(),
            old(self).inv() ==> final(self).inv(),
    {
        let dirnames = match into_dirnames(path) {
            Some(v) => v,
            None => return None,
        };
        proof {
            lemma_pieces_valid(path@);
        }
        if dirnames.len() == 0 {
            self.cwd = Vec::new();
            assert(string_views(self.cwd@) =~= seq![]);
        } else {
            let ghost base = if pieces(path@)[0] == seq!['.'] || pieces(path@)[0] == seq!['.', '.'] {
                old(self).cwd()
            } else {
                seq![]
            };
            proof {
                if old(self).inv() {
                    lemma_flatten_cwd_names(base, pieces(path@));
                }
            }
            self.cwd = self.flatten_path(dirnames);
        }
        Some(())
    }
}


impl EsFS4 {
    /// The blocks of the device.
    pub closed spec fn disk(&self) -> Seq<Seq<u8>> {
        self.dfs.disk()
    }

    /// The cached superblock.
    pub closed spec fn sb(&self) -> SuperBlock {
        self.dfs.sb()
    }

    /// The layers underneath are well formed.
    pub closed spec fn layer_ok(&self) -> bool {
        self.dfs.inv()
    }

    /// Every name of the working directory is a valid name other than `.`
    /// and `..`.
    pub open spec fn cwd_ok(&self) -> bool {
        forall|i: int| 0 <= i < self.cwd().len() ==> cwd_name(#[trigger] self.cwd()[i])
    }

    /// Well-formedness: a valid superblock describing the device, and a
    /// working directory of valid names.
    pub open spec fn inv(&self) -> bool {
        &&& self.layer_ok()
        &&& self.cwd_ok()
        &&& self.disk().len() == self.sb().nblocks
        &&& forall|i: int|
            0 <= i < self.disk().len() ==> #[trigger] self.disk()[i].len() == self.sb().block_size
        &&& sb_valid_spec(self.sb())
        &&& self.sb().nblocks * (8 * self.sb().block_size) <= u64::MAX
        &&& self.sb().block_size <= usize::MAX
    }

    /// Mounts the file system on `dev`, with the root as working directory.
    pub fn mountfs(dev: Device) -> (r: Result<EsFS4, PathError>)
        requires
            dev.well_formed(),
            dev.nb() * (8 * dev.bs()) <= u64::MAX,
        ensures
            r matches Ok(fs) ==> fs.inv() && fs.disk() == dev@ && fs.sb() == superblock_at(dev@[0], 0) && fs.cwd() == Seq::<Seq<char>>::empty(),
            r is Ok <==> {
                &&& dev.nb() > 0
                &&& SUPERBLOCK_SIZE <= dev.bs()
                &&& sb_valid_spec(superblock_at(dev@[0], 0))
                &&& superblock_at(dev@[0], 0).block_size == dev.bs()
                &&& superblock_at(dev@[0], 0).nblocks == dev.nb()
            },
            r is Err ==> r matches Err(PathError::Backend(DirectoryError::Backend(InodeRWError::Inode(InodeError::Block(_))))),
    {
        match EsFS3::mountfs(dev) {
            Ok(dfs) => {
                let fs = EsFS4 { dfs, cwd: Vec::new() };
                assert(fs.cwd() =~= Seq::<Seq<char>>::empty());
                Ok(fs)
            },
            Err(e) => Err(PathError::Backend(e)),
        }
    }

    /// A directory entry for inode `inum` named `name` (as the directory layer makes it).
    pub fn new_de(inum: u64, name: &str) -> (r: Option<DirEntry>)
        ensures
            r is Some <==> valid_dirname(name@),
            r matches Some(de) ==> de.inum == inum && de.name@ == name_written(Seq::new(14, |i: int| 0u8), name@),
    {
        EsFS3::new_de(inum, name)
    }

    /// The name of `de` as text (as the directory layer reads it).
    pub fn get_name_str(de: &DirEntry) -> (r: String)
        ensures
            r@ == name_text(de.name@),
    {
        EsFS3::get_name_str(de)
    }

    /// Sets the name of `de` to `name` (as the directory layer does).
    pub fn set_name_str(de: &mut DirEntry, name: &str) -> (r: Option<()>)
        ensures
            r is Some <==> valid_dirname(name@),
            final(de).inum == old(de).inum,
            r is Some ==> final(de).name@ == name_written(old(de).name@, name@),
            r is Some ==> name_text(final(de).name@) == name@,
            r is None ==> final(de).name@ == old(de).name@,
    {
        EsFS3::set_name_str(de, name)
    }

    /// Splits `path` into the path to its parent and its last entry name (see
    /// [`split_parent_entry`]).
    pub fn split_parent_entry(path: &str) -> (r: Option<(&str, &str)>)
        ensures
            r is Some <==> path_ok(path@) && pieces(path@).len() > 0,
            r matches Some((a, b)) ==> (a@, b@) == parent_and_entry(path@),
    {
        split_parent_entry(path)
    }

    /// The pieces of `path` (see [`into_dirnames`]).
    pub fn into_dirnames(path: &str) -> (r: Option<Vec<&str>>)
        ensures
            r is Some <==> path_ok(path@),
            r matches Some(v) ==> str_views(v@) == pieces(path@),
    {
        into_dirnames(path)
    }
}

impl EsFS4 {
    /// Reads block `i` of the device.
    pub fn b_get(&self, i: u64) -> (r: Result<Block, PathError>)
        requires
            self.inv(),
        ensures
            r is Ok <==> i < self.sb().nblocks,
            r matches Ok(b) ==> b.block_no == i && b@ == self.disk()[i as int],
            r is Err ==> r matches Err(PathError::Backend(DirectoryError::Backend(InodeRWError::Inode(InodeError::Block(BlockError::API(_)))))),
    {
        match self.dfs.b_get(i) {
            Ok(v) => Ok(v),
            Err(e) => Err(PathError::Backend(e)),
        }
    }

    /// Writes `b` to block `b.block_no` of the device.
    pub fn b_put(&mut self, b: &Block) -> (r: Result<(), PathError>)
        requires
            old(self).inv(),
        ensures
            final(self).cwd() == old(self).cwd(),
            final(self).inv(),
            final(self).sb() == old(self).sb(),
            r is Ok <==> b.block_no < old(self).sb().nblocks && b@.len() == old(self).sb().block_size,
            r is Ok ==> final(self).disk() == old(self).disk().update(b.block_no as int, b@),
            r is Err ==> final(self).disk() == old(self).disk() && r matches Err(PathError::Backend(DirectoryError::Backend(InodeRWError::Inode(InodeError::Block(BlockError::API(_)))))),
    {
        let r = match self.dfs.b_put(b) {
            Ok(v) => Ok(v),
            Err(e) => Err(PathError::Backend(e)),
        };
        assert(self.cwd() == old(self).cwd());
        r
    }

    /// Frees data block `i`.
    pub fn b_free(&mut self, i: u64) -> (r: Result<(), PathError>)
        requires
            old(self).inv(),
        ensures
            final(self).cwd() == old(self).cwd(),
            final(self).inv(),
            final(self).sb() == old(self).sb(),
            r is Ok <==> i < old(self).sb().ndatablocks && bitmap_bit(old(self).disk(), old(self).sb(), i as int),
            r is Ok ==> final(self).disk() == disk_with_bit(old(self).disk(), old(self).sb(), i as int, false),
            r is Err ==> final(self).disk() == old(self).disk(),
            r matches Err(PathError::Backend(DirectoryError::Backend(InodeRWError::Inode(InodeError::Block(BlockError::Bounds(_)))))) <==> i >= old(self).sb().ndatablocks,
            r matches Err(PathError::Backend(DirectoryError::Backend(InodeRWError::Inode(InodeError::Block(BlockError::Allocation(_)))))) <==> i < old(self).sb().ndatablocks && !bitmap_bit(old(self).disk(), old(self).sb(), i as int),
    {
        let r = match self.dfs.b_free(i) {
            Ok(v) => Ok(v),
            Err(e) => Err(PathError::Backend(e)),
        };
        assert(self.cwd() == old(self).cwd());
        r
    }

    /// Zeroes data block `i`.
    pub fn b_zero(&mut self, i: u64) -> (r: Result<(), PathError>)
        requires
            old(self).inv(),
        ensures
            final(self).cwd() == old(self).cwd(),
            final(self).inv(),
            final(self).sb() == old(self).sb(),
            r is Ok <==> i < old(self).sb().ndatablocks,
            r is Ok ==> final(self).disk() == disk_with_zero_block(old(self).disk(), old(self).sb(), old(self).sb().datastart + i),
            r is Err ==> final(self).disk() == old(self).disk() && r matches Err(PathError::Backend(DirectoryError::Backend(InodeRWError::Inode(InodeError::Block(BlockError::Bounds(_)))))),
    {
        let r = match self.dfs.b_zero(i) {
            Ok(v) => Ok(v),
            Err(e) => Err(PathError::Backend(e)),
        };
        assert(self.cwd() == old(self).cwd());
        r
    }

    /// Allocates the free data block with the lowest index.
    pub fn b_alloc(&mut self) -> (r: Result<u64, PathError>)
        requires
            old(self).inv(),
        ensures
            final(self).cwd() == old(self).cwd(),
            final(self).inv(),
            final(self).sb() == old(self).sb(),
            r is Ok <==> exists|g: int| 0 <= g < old(self).sb().ndatablocks && !bitmap_bit(old(self).disk(), old(self).sb(), g),
            r matches Ok(g) ==> {
                &&& g < old(self).sb().ndatablocks
                &&& !bitmap_bit(old(self).disk(), old(self).sb(), g as int)
                &&& forall|h: int| 0 <= h < g ==> #[trigger] bitmap_bit(old(self).disk(), old(self).sb(), h)
                &&& final(self).disk() == disk_with_zero_block(
                    disk_with_bit(old(self).disk(), old(self).sb(), g as int, true),
                    old(self).sb(),
                    old(self).sb().datastart + g,
                )
            },
            r is Err ==> (r matches Err(PathError::Backend(DirectoryError::Backend(InodeRWError::Inode(InodeError::Block(BlockError::Allocation(_))))))) && final(self).disk() == old(self).disk(),
    {
        let r = match self.dfs.b_alloc() {
            Ok(v) => Ok(v),
            Err(e) => Err(PathError::Backend(e)),
        };
        assert(self.cwd() == old(self).cwd());
        r
    }

    /// The cached superblock.
    pub fn sup_get(&self) -> (r: Result<SuperBlock, PathError>)
        ensures
            r == Ok::<SuperBlock, PathError>(self.sb()),
    {
        match self.dfs.sup_get() {
            Ok(v) => Ok(v),
            Err(e) => Err(PathError::Backend(e)),
        }
    }

    /// Block size of the device.
    pub closed spec fn dev_bs(&self) -> u64 {
        self.dfs.dev_bs()
    }

    /// Number of blocks of the device.
    pub closed spec fn dev_nb(&self) -> u64 {
        self.dfs.dev_nb()
    }

    /// The device holds `dev_nb()` blocks of `dev_bs()` bytes each, whatever
    /// the cached superblock says.
    pub open spec fn dev_ok(&self) -> bool {
        &&& self.disk().len() == self.dev_nb()
        &&& forall|i: int| 0 <= i < self.disk().len() ==> #[trigger] self.disk()[i].len() == self.dev_bs()
        &&& self.dev_nb() > 0 ==> self.dev_bs() <= usize::MAX
    }

    /// Replaces the superblock, in the cache and in block 0 (see
    /// [`EsFS1::sup_put`]): any superblock is taken, and the file system is
    /// well formed afterwards exactly when the new one describes the device.
    pub fn sup_put(&mut self, sup: &SuperBlock) -> (r: Result<(), PathError>)
        requires
            old(self).dev_ok(),
        ensures
            final(self).cwd() == old(self).cwd(),
            final(self).dev_ok(),
            final(self).dev_bs() == old(self).dev_bs(),
            final(self).dev_nb() == old(self).dev_nb(),
            final(self).sb() == *sup,
            final(self).inv() <==> sb_fits_device(*sup, old(self).dev_bs(), old(self).dev_nb()) && old(self).cwd_ok(),
            r is Ok <==> 0 < old(self).dev_nb() && SUPERBLOCK_SIZE <= old(self).dev_bs(),
            r is Ok ==> final(self).disk() == old(self).disk().update(0, final(self).disk()[0]),
            r is Ok ==> superblock_at(final(self).disk()[0], 0) == *sup,
            r is Ok ==> forall|k: int|
                SUPERBLOCK_SIZE <= k < old(self).dev_bs() ==> #[trigger] final(self).disk()[0][k] == old(self).disk()[0][k],
            r is Err ==> final(self).disk() == old(self).disk(),
    {
        let r = match self.dfs.sup_put(sup) {
            Ok(v) => Ok(v),
            Err(e) => Err(PathError::Backend(e)),
        };
        assert(self.cwd() == old(self).cwd());
        r
    }

    /// Reads inode `i`. Fails when `i` is out of range or its bytes do not
    /// encode an inode.
    pub fn i_get(&self, i: u64) -> (r: Result<Inode, PathError>)
        requires
            self.inv(),
            inode_usable(self.sb(), i as int),
        ensures
            r is Ok <==> inode_in_range(self.sb(), i as int) && disk_inode(self.disk(), self.sb(), i as int) is Some,
            r matches Ok(ino) ==> ino.inum == i && Some(ino.disk_node@) == disk_inode(self.disk(), self.sb(), i as int),
            r matches Err(PathError::Backend(DirectoryError::Backend(InodeRWError::Inode(InodeError::Bounds)))) <==> !inode_in_range(self.sb(), i as int),
            r matches Err(PathError::Backend(DirectoryError::Backend(InodeRWError::Inode(InodeError::API(_))))) <==> inode_in_range(self.sb(), i as int) && disk_inode(self.disk(), self.sb(), i as int) is None,
    {
        match self.dfs.i_get(i) {
            Ok(v) => Ok(v),
            Err(e) => Err(PathError::Backend(e)),
        }
    }

    /// Writes `ino` as inode `ino.inum`. Fails when the number is out of range.
    pub fn i_put(&mut self, ino: &Inode) -> (r: Result<(), PathError>)
        requires
            old(self).inv(),
            inode_usable(old(self).sb(), ino.inum as int),
        ensures
            final(self).cwd() == old(self).cwd(),
            final(self).inv(),
            final(self).sb() == old(self).sb(),
            r is Ok <==> inode_in_range(old(self).sb(), ino.inum as int),
            r is Ok ==> inode_written(old(self).disk(), final(self).disk(), old(self).sb(), ino.inum as int, ino.disk_node@),
            r is Err ==> final(self).disk() == old(self).disk() && (r matches Err(PathError::Backend(DirectoryError::Backend(InodeRWError::Inode(InodeError::Bounds))))),
    {
        let r = match self.dfs.i_put(ino) {
            Ok(v) => Ok(v),
            Err(e) => Err(PathError::Backend(e)),
        };
        assert(self.cwd() == old(self).cwd());
        r
    }

    /// Frees inode `i` when it has no links left: frees its data blocks (see
    /// [`EsFS2::deallocate_valid_blocks`]) and marks it free with no blocks.
    /// Does nothing when links remain; fails when the inode is already free.
    pub fn i_free(&mut self, i: u64) -> (r: Result<(), PathError>)
        requires
            old(self).inv(),
            inode_usable(old(self).sb(), i as int),
        ensures
            final(self).cwd() == old(self).cwd(),
            final(self).inv(),
            final(self).sb() == old(self).sb(),
            r matches Err(PathError::Backend(DirectoryError::Backend(InodeRWError::Inode(InodeError::Bounds)))) <==> !inode_in_range(old(self).sb(), i as int),
            r matches Err(PathError::Backend(DirectoryError::Backend(InodeRWError::Inode(InodeError::API(_))))) <==> inode_in_range(old(self).sb(), i as int)
                && disk_inode(old(self).disk(), old(self).sb(), i as int) is None,
            !inode_in_range(old(self).sb(), i as int) || disk_inode(old(self).disk(), old(self).sb(), i as int) is None
                ==> final(self).disk() == old(self).disk(),
            inode_in_range(old(self).sb(), i as int) ==> match disk_inode(old(self).disk(), old(self).sb(), i as int) {
                Some(d) => if d.nlink > 0 {
                    r is Ok && final(self).disk() == old(self).disk()
                } else if d.ft == FType::TFree {
                    (r matches Err(PathError::Backend(DirectoryError::Backend(InodeRWError::Inode(InodeError::Alloc(_)))))) && final(self).disk() == old(self).disk()
                } else {
                    let s = blocks_to_free(d.size, d.blocks, old(self).sb());
                    let c = free_count(old(self).disk(), old(self).sb(), s);
                    let fd = free_all(old(self).disk(), old(self).sb(), s);
                    &&& c < s.len() ==> final(self).disk() == fd && (r matches Err(PathError::Backend(DirectoryError::Backend(InodeRWError::Inode(InodeError::Block(_))))))
                    &&& (r matches Err(PathError::Backend(DirectoryError::Backend(InodeRWError::Inode(InodeError::Block(BlockError::Bounds(_)))))) <==> c < s.len() && s[c as int] >= old(self).sb().ndatablocks)
                    &&& (r matches Err(PathError::Backend(DirectoryError::Backend(InodeRWError::Inode(InodeError::Block(BlockError::Allocation(_)))))) <==> c < s.len() && s[c as int] < old(self).sb().ndatablocks && !bitmap_bit(fd, old(self).sb(), s[c as int] as int))
                    &&& c == s.len() ==> r is Ok && inode_written(fd, final(self).disk(), old(self).sb(), i as int, DInodeView { ft: FType::TFree, nlink: 0, size: d.size, blocks: no_blocks() })
                },
                None => true,
            },
    {
        let r = match self.dfs.i_free(i) {
            Ok(v) => Ok(v),
            Err(e) => Err(PathError::Backend(e)),
        };
        assert(self.cwd() == old(self).cwd());
        r
    }

    /// Truncates `inode` to size zero: checks that it matches what is on disk,
    /// frees its data blocks , clears
    /// its block pointers and writes it back.
    pub fn i_trunc(&mut self, inode: &mut Inode) -> (r: Result<(), PathError>)
        requires
            old(self).inv(),
            inode_usable(old(self).sb(), old(inode).inum as int),
        ensures
            final(self).cwd() == old(self).cwd(),
            final(self).inv(),
            final(self).sb() == old(self).sb(),
            final(inode).inum == old(inode).inum,
            r matches Err(PathError::Backend(DirectoryError::Backend(InodeRWError::Inode(InodeError::Bounds)))) <==> !inode_in_range(old(self).sb(), old(inode).inum as int),
            r matches Err(PathError::Backend(DirectoryError::Backend(InodeRWError::Inode(InodeError::API(_))))) <==> inode_in_range(old(self).sb(), old(inode).inum as int)
                && disk_inode(old(self).disk(), old(self).sb(), old(inode).inum as int) is None,
            r matches Err(PathError::Backend(DirectoryError::Backend(InodeRWError::Inode(InodeError::Trunc(_))))) <==> inode_in_range(old(self).sb(), old(inode).inum as int)
                && disk_inode(old(self).disk(), old(self).sb(), old(inode).inum as int) is Some
                && disk_inode(old(self).disk(), old(self).sb(), old(inode).inum as int) != Some(old(inode).disk_node@),
            !(inode_in_range(old(self).sb(), old(inode).inum as int) && disk_inode(old(self).disk(), old(self).sb(), old(inode).inum as int) == Some(old(inode).disk_node@))
                ==> final(self).disk() == old(self).disk() && *final(inode) == *old(inode),
            inode_in_range(old(self).sb(), old(inode).inum as int) && disk_inode(old(self).disk(), old(self).sb(), old(inode).inum as int) == Some(old(inode).disk_node@) ==> ({
                let d = old(inode).disk_node@;
                let s = blocks_to_free(d.size, d.blocks, old(self).sb());
                let c = free_count(old(self).disk(), old(self).sb(), s);
                let fd = free_all(old(self).disk(), old(self).sb(), s);
                &&& c < s.len() ==> final(self).disk() == fd && (r matches Err(PathError::Backend(DirectoryError::Backend(InodeRWError::Inode(InodeError::Block(_)))))) && *final(inode) == *old(inode)
                &&& (r matches Err(PathError::Backend(DirectoryError::Backend(InodeRWError::Inode(InodeError::Block(BlockError::Bounds(_)))))) <==> c < s.len() && s[c as int] >= old(self).sb().ndatablocks)
                &&& (r matches Err(PathError::Backend(DirectoryError::Backend(InodeRWError::Inode(InodeError::Block(BlockError::Allocation(_)))))) <==> c < s.len() && s[c as int] < old(self).sb().ndatablocks && !bitmap_bit(fd, old(self).sb(), s[c as int] as int))
                &&& c == s.len() ==> {
                    &&& r is Ok
                    &&& final(inode).disk_node@ == DInodeView { ft: d.ft, nlink: d.nlink, size: 0, blocks: no_blocks() }
                    &&& inode_written(fd, final(self).disk(), old(self).sb(), old(inode).inum as int, final(inode).disk_node@)
                }
            }),
    {
        let r = match self.dfs.i_trunc(inode) {
            Ok(v) => Ok(v),
            Err(e) => Err(PathError::Backend(e)),
        };
        assert(self.cwd() == old(self).cwd());
        r
    }

    /// Allocates the free inode with the lowest number among `1.. ninodes`:
    /// gives it kind `ft`, size zero and no blocks (its link count is kept), and
    /// returns its number. Fails when no inode in that range is free.
    pub fn i_alloc(&mut self, ft: FType) -> (r: Result<u64, PathError>)
        requires
            old(self).inv(),
            forall|j: int| 1 <= j < old(self).sb().ninodes && (forall|k: int| 1 <= k < j ==> #[trigger] used_inode(old(self).disk(), old(self).sb(), k))
                ==> #[trigger] disk_inode(old(self).disk(), old(self).sb(), j) is Some,
        ensures
            final(self).cwd() == old(self).cwd(),
            final(self).inv(),
            final(self).sb() == old(self).sb(),
            r is Ok <==> exists|j: int| 1 <= j < old(self).sb().ninodes && #[trigger] free_inode(old(self).disk(), old(self).sb(), j),
            r matches Ok(j) ==> {
                &&& 1 <= j < old(self).sb().ninodes
                &&& free_inode(old(self).disk(), old(self).sb(), j as int)
                &&& forall|k: int| 1 <= k < j ==> #[trigger] used_inode(old(self).disk(), old(self).sb(), k)
                &&& inode_written(old(self).disk(), final(self).disk(), old(self).sb(), j as int, DInodeView {
                    ft,
                    nlink: disk_inode(old(self).disk(), old(self).sb(), j as int).unwrap().nlink,
                    size: 0,
                    blocks: no_blocks(),
                })
            },
            r is Err ==> (r matches Err(PathError::Backend(DirectoryError::Backend(InodeRWError::Inode(InodeError::Alloc(_)))))) && final(self).disk() == old(self).disk(),
    {
        let r = match self.dfs.i_alloc(ft) {
            Ok(v) => Ok(v),
            Err(e) => Err(PathError::Backend(e)),
        };
        assert(self.cwd() == old(self).cwd());
        r
    }

    /// Whether `sb` is a valid superblock.
    pub fn sb_valid(sb: &SuperBlock) -> (r: bool)
        ensures
            r == sb_valid_spec(*sb),
    {
        EsFS3::sb_valid(sb)
    }

    /// Gives the device back.
    pub fn unmountfs(self) -> (d: Device)
        requires
            self.inv(),
        ensures
            d.well_formed(),
            d@ == self.disk(),
            d.bs() == self.sb().block_size,
            d.nb() == self.sb().nblocks,
    {
        self.dfs.unmountfs()
    }

    /// Reads up to `n` bytes of the data of `inode` from offset `off` into the
    /// start of `buf`: as many as fit in the buffer and lie before the end of the
    /// inode. Returns how many were read. Fails when `off` lies past the end of
    /// the inode, or a block to read has pointer zero (the bytes of the blocks
    /// before it are then in the buffer).
    pub fn i_read(&self, inode: &Inode, buf: &mut Buffer, off: u64, n: u64) -> (r: Result<u64, PathError>)
        requires
            self.inv(),
            inode.disk_node.size <= usize::MAX,
            off <= inode.disk_node.size ==> ({
                let m = bytes_to_read(inode.disk_node.size, old(buf)@.len() as u64, off, n);
                let first = off / self.sb().block_size;
                reads_ok(inode.disk_node@, self.sb().nblocks, first as int, first + blocks_spanned(off as int, m, self.sb().block_size as int) - 1)
            }),
        ensures
            final(buf)@.len() == old(buf)@.len(),
            off > inode.disk_node.size ==> (r matches Err(PathError::Backend(DirectoryError::Backend(InodeRWError::RW(_))))) && final(buf)@ == old(buf)@,
            off <= inode.disk_node.size ==> ({
                let bs = self.sb().block_size as int;
                let m = bytes_to_read(inode.disk_node.size, old(buf)@.len() as u64, off, n);
                let first = off / self.sb().block_size;
                let nb = blocks_spanned(off as int, m, bs);
                let d = inode.disk_node@;
                &&& (r is Ok <==> all_present(d, first as int, first + nb - 1))
                &&& (r matches Ok(x) ==> x == m)
                &&& (r is Err ==> r matches Err(PathError::Backend(DirectoryError::Backend(InodeRWError::RW(_)))))
                &&& forall|k: int| 0 <= k < old(buf)@.len() ==> #[trigger] final(buf)@[k] == if k < m && all_present(d, first as int, (off + k) / bs) {
                    file_byte(self.disk(), bs, d, off + k)
                } else {
                    old(buf)@[k]
                }
            }),
    {
        match self.dfs.i_read(inode, buf, off, n) {
            Ok(v) => Ok(v),
            Err(e) => Err(PathError::Backend(e)),
        }
    }

    /// Writes the first `n` bytes of `buf` into the data of `inode` from offset
    /// `off` on, block by block, allocating the lowest free data block for each
    /// piece whose pointer is zero (see [`write_range_count`] for the pieces),
    /// and grows the inode, writing it back, when the bytes end past its size.
    /// Fails, changing nothing, when the buffer holds fewer than `n` bytes
    /// (`RW`), when the bytes would end past the blocks an inode can have
    /// (`OutOfBlocks`), or when `off` lies past the end of the inode (`RW`).
    /// Otherwise fails with `OutOfBlocks` exactly when the pieces reach past the
    /// pointer array or need more blocks than the bitmap has free, and with the
    /// inode layer's `Bounds` when the inode must grow and its number is out of
    /// range. The outcome past the first three checks is stated for an inode
    /// whose block pointers are sound (see [`blocks_sound`]); once the first
    /// three checks pass, the pointers the pieces meet must lie on the device.
    pub fn i_write(&mut self, inode: &mut Inode, buf: &Buffer, off: u64, n: u64) -> (r: Result<(), PathError>)
        requires
            old(self).inv(),
            buf@.len() >= n ==> off + n <= u64::MAX && off + n <= usize::MAX,
            buf@.len() >= n && off + n <= 12 * old(self).sb().block_size && off <= old(inode).disk_node.size && n > 0
                ==> inode_usable(old(self).sb(), old(inode).inum as int),
            buf@.len() >= n && off + n <= 12 * old(self).sb().block_size && off <= old(inode).disk_node.size
                ==> pieces_on_device(old(self).sb(), old(inode).disk_node@, off as int, n as int),
        ensures
            final(self).cwd() == old(self).cwd(),
            final(self).inv(),
            final(self).sb() == old(self).sb(),
            final(inode).inum == old(inode).inum,
            ({
                let sb = old(self).sb();
                let bs = sb.block_size as int;
                let d0 = old(inode).disk_node@;
                let first = off as int / bs;
                let nr = write_range_count(n as int, off as int % bs, bs);
                let short = first + nr > 12 || missing_ptrs(d0, first, first + nr) > free_below(old(self).disk(), sb, sb.ndatablocks as int);
                let unchanged = final(self).disk() == old(self).disk() && *final(inode) == *old(inode);
                &&& buf@.len() < n ==> (r matches Err(PathError::Backend(DirectoryError::Backend(InodeRWError::RW(_))))) && unchanged
                &&& buf@.len() >= n && 12 * bs < off + n ==> (r matches Err(PathError::Backend(DirectoryError::Backend(InodeRWError::OutOfBlocks(_))))) && unchanged
                &&& buf@.len() >= n && off + n <= 12 * bs && d0.size < off ==> (r matches Err(PathError::Backend(DirectoryError::Backend(InodeRWError::RW(_))))) && unchanged
                &&& buf@.len() >= n && off + n <= 12 * bs && off <= d0.size && n == 0 ==> r is Ok && unchanged
                &&& buf@.len() >= n && off + n <= 12 * bs && off <= d0.size && n > 0
                    && write_meets_ok(old(self).disk(), sb, d0, old(inode).inum as int, off as int, n as int) ==> {
                    &&& (r matches Err(PathError::Backend(DirectoryError::Backend(InodeRWError::OutOfBlocks(_)))) <==> short)
                    &&& (r matches Err(PathError::Backend(DirectoryError::Backend(InodeRWError::Inode(InodeError::Bounds)))) <==> !short && d0.size < off + n
                        && !inode_in_range(sb, old(inode).inum as int))
                    &&& (r is Ok <==> !short && (d0.size < off + n ==> inode_in_range(sb, old(inode).inum as int)))
                    &&& r is Ok ==> write_met_done(old(self).disk(), d0, final(self).disk(), final(inode).disk_node@, sb,
                        old(inode).inum as int, off as int, n as int, buf@)
                }
                &&& buf@.len() >= n && off + n <= 12 * bs && off <= d0.size && n > 0 && blocks_sound(old(self).disk(), sb, d0) ==> {
                    &&& write_meets_ok(old(self).disk(), sb, d0, old(inode).inum as int, off as int, n as int)
                    &&& r is Ok ==> write_done(old(self).disk(), d0, final(self).disk(), final(inode).disk_node@, sb,
                        old(inode).inum as int, off as int, n as int, buf@)
                    &&& r is Err ==> blocks_sound(final(self).disk(), sb, final(inode).disk_node@)
                }
            }),
    {
        let r = match self.dfs.i_write(inode, buf, off, n) {
            Ok(v) => Ok(v),
            Err(e) => Err(PathError::Backend(e)),
        };
        assert(self.cwd() == old(self).cwd());
        r
    }

    /// Looks `name` up in directory `inode`: gives the inode of the first
    /// entry with that name and the entry's byte offset. Fails when `inode` is
    /// not a directory or differs from the inode on disk, when no entry has the
    /// name, or when an inode cannot be read.
    pub fn dirlookup(&self, inode: &Inode, name: &str) -> (r: Result<(Inode, u64), PathError>)
        requires
            self.inv(),
            inode.disk_node.ft == FType::TDir ==> inode_usable(self.sb(), inode.inum as int),
            inode.disk_node.ft == FType::TDir && inode_in_range(self.sb(), inode.inum as int)
                && disk_inode(self.disk(), self.sb(), inode.inum as int) == Some(inode.disk_node@)
                ==> data_readable(inode.disk_node@, self.sb()),
        ensures
            ({
                let sb = self.sb();
                let disk = self.disk();
                let d = inode.disk_node@;
                let i = inode.inum as int;
                let on_disk = disk_inode(disk, sb, i);
                let is_dir = inode.disk_node.ft == FType::TDir;
                &&& !is_dir ==> (r matches Err(PathError::Backend(DirectoryError::IllegalInode(_))))
                &&& is_dir && !inode_in_range(sb, i) ==> (r matches Err(PathError::Backend(DirectoryError::Backend(InodeRWError::Inode(InodeError::Bounds)))))
                &&& is_dir && inode_in_range(sb, i) && on_disk is None ==> (r matches Err(PathError::Backend(DirectoryError::Backend(InodeRWError::Inode(InodeError::API(_))))))
                &&& is_dir && inode_in_range(sb, i) && on_disk is Some && on_disk != Some(d) ==> (r matches Err(PathError::Backend(DirectoryError::IllegalInode(_))))
                &&& is_dir && inode_in_range(sb, i) && on_disk == Some(d) ==> match lookup_index(disk, sb, d, name@) {
                    None => (r matches Err(PathError::Backend(DirectoryError::ItemNotFound))),
                    Some(k) => {
                        let e = dir_entry(disk, sb.block_size as int, d, k).inum as int;
                        &&& !inode_in_range(sb, e) ==> (r matches Err(PathError::Backend(DirectoryError::Backend(InodeRWError::Inode(InodeError::Bounds)))))
                        &&& inode_in_range(sb, e) && disk_inode(disk, sb, e) is None ==> (r matches Err(PathError::Backend(DirectoryError::Backend(InodeRWError::Inode(InodeError::API(_))))))
                        &&& inode_in_range(sb, e) && disk_inode(disk, sb, e) is Some ==> (r matches Ok((ino, off)) && ino.inum == e
                            && Some(ino.disk_node@) == disk_inode(disk, sb, e) && off == k * 22)
                    },
                }
            }),
    {
        match self.dfs.dirlookup(inode, name) {
            Ok(v) => Ok(v),
            Err(e) => Err(PathError::Backend(e)),
        }
    }

    /// Adds an entry `name` for inode `inum` to directory `inode`, at its
    /// first free entry or else at the end of its data, and, unless the entry
    /// links the directory to itself, adds a link to inode `inum`. Gives the
    /// entry's byte offset. Fails, changing nothing, when `name` is not a
    /// valid name, when inode `inum` cannot be read or is free, when the
    /// directory cannot be looked in (see [`EsFS3::dirlookup`]) or already
    /// has the name; fails with `OutOfBlocks` when the entry does not fit.
    /// When the block pointers the entry's write meets can be written through
    /// and are distinct (see [`write_meets_ok`]), and none of them holds the
    /// inode `inum`, the entry, its offset, the new size and the new link are
    /// stated; what else the write changes (the other entries and inodes) is
    /// stated for a directory whose block pointers are all sound (see
    /// [`blocks_sound`]).
    pub fn dirlink(&mut self, inode: &mut Inode, name: &str, inum: u64) -> (r: Result<u64, PathError>)
        requires
            old(self).inv(),
            valid_dirname(name@) ==> inode_usable(old(self).sb(), inum as int),
            link_ready(old(self).disk(), old(self).sb(), name@, inum as int)
                && dir_on_disk(old(self).disk(), old(self).sb(), old(inode).inum as int, old(inode).disk_node@)
                ==> data_readable(old(inode).disk_node@, old(self).sb())
                && old(inode).disk_node.size + DIRENTRY_SIZE <= usize::MAX && pieces_on_device(
                old(self).sb(),
                old(inode).disk_node@,
                link_offset(old(self).disk(), old(self).sb().block_size as int, old(inode).disk_node@),
                22,
            ),
            link_ready(old(self).disk(), old(self).sb(), name@, inum as int)
                && dir_on_disk(old(self).disk(), old(self).sb(), old(inode).inum as int, old(inode).disk_node@)
                && lookup_index(old(self).disk(), old(self).sb(), old(inode).disk_node@, name@) is None && inum != old(inode).inum
                ==> disk_inode(old(self).disk(), old(self).sb(), inum as int).unwrap().nlink < u16::MAX,
        ensures
            final(self).cwd() == old(self).cwd(),
            final(self).inv(),
            final(self).sb() == old(self).sb(),
            final(inode).inum == old(inode).inum,
            ({
                let sb = old(self).sb();
                let bs = sb.block_size as int;
                let disk0 = old(self).disk();
                let d0 = old(inode).disk_node@;
                let i0 = old(inode).inum as int;
                let tgt = disk_inode(disk0, sb, inum as int);
                let unchanged = final(self).disk() == disk0 && *final(inode) == *old(inode);
                let ready = valid_dirname(name@) && inode_in_range(sb, inum as int) && (tgt matches Some(t) && t.ft != FType::TFree);
                let dir_ok = d0.ft == FType::TDir && inode_in_range(sb, i0) && disk_inode(disk0, sb, i0) == Some(d0);
                let sound = blocks_sound(disk0, sb, d0);
                let off = link_offset(disk0, bs, d0);
                let first = off / bs;
                let nr = write_range_count(22, off % bs, bs);
                let short = off + 22 > 12 * bs || first + nr > 12 || missing_ptrs(d0, first, first + nr) > free_below(disk0, sb, sb.ndatablocks as int);
                &&& !valid_dirname(name@) ==> (r matches Err(PathError::Backend(DirectoryError::IllegalDirEntry(_)))) && unchanged
                &&& valid_dirname(name@) && !inode_in_range(sb, inum as int) ==> (r matches Err(PathError::Backend(DirectoryError::Backend(InodeRWError::Inode(InodeError::Bounds))))) && unchanged
                &&& valid_dirname(name@) && inode_in_range(sb, inum as int) && tgt is None ==> (r matches Err(PathError::Backend(DirectoryError::Backend(InodeRWError::Inode(InodeError::API(_)))))) && unchanged
                &&& valid_dirname(name@) && inode_in_range(sb, inum as int) && (tgt matches Some(t) && t.ft == FType::TFree) ==> (r matches Err(PathError::Backend(DirectoryError::IllegalDirEntry(_)))) && unchanged
                &&& ready && !dir_ok ==> r is Err && unchanged
                &&& ready && dir_ok && lookup_index(disk0, sb, d0, name@) is Some ==> r is Err && unchanged
                &&& ready && dir_ok && (lookup_index(disk0, sb, d0, name@) matches Some(k) && inode_in_range(sb, dir_entry(disk0, bs, d0, k).inum as int)
                    && disk_inode(disk0, sb, dir_entry(disk0, bs, d0, k).inum as int) is Some) ==> (r matches Err(PathError::Backend(DirectoryError::IllegalDirEntry(_)))) && unchanged
                &&& ready && dir_ok && lookup_index(disk0, sb, d0, name@) is None && write_meets_ok(disk0, sb, d0, i0, off, 22)
                    && (inum != i0 ==> !pointed(d0, first, first + nr, inode_block_of(sb, inum as int))) ==> {
                    let disk1 = final(self).disk();
                    let d1 = final(inode).disk_node@;
                    &&& short ==> (r matches Err(PathError::Backend(DirectoryError::Backend(InodeRWError::OutOfBlocks(_)))))
                    &&& !short ==> (r matches Ok(o) && o == off)
                    &&& !short ==> d1.size == (if d0.size < off + 22 { off + 22 } else { d0.size as int })
                        && d1.ft == d0.ft && d1.nlink == d0.nlink
                    &&& !short ==> entry_at(disk1, bs, d1, off) == new_entry(inum, name@)
                    &&& !short && inum != i0 ==> disk_inode(disk1, sb, inum as int) == Some(with_nlink(tgt.unwrap(), tgt.unwrap().nlink + 1))
                    &&& !short ==> free_below(disk1, sb, sb.ndatablocks as int) + missing_ptrs(d0, first, first + nr) == free_below(disk0, sb, sb.ndatablocks as int)
                    &&& !short && !pointed(d0, first, first + nr, inode_block_of(sb, i0)) ==> disk_inode(disk1, sb, i0) == (if d0.size < off + 22 { Some(d1) } else { Some(d0) })
                    &&& !short ==> met_sound(disk1, sb, d1, first, first + nr)
                    &&& !short ==> forall|j: int| first <= j < first + nr && ptr(d0, j) == 0 ==> sb.datastart <= #[trigger] ptr(d1, j) < sb.datastart + sb.ndatablocks
                    &&& !short ==> forall|j: int| ptr(d0, j) != 0 ==> #[trigger] ptr(d1, j) == ptr(d0, j)
                    &&& !short ==> forall|h: int| 0 <= h < sb.ndatablocks && bitmap_bit(disk0, sb, h) ==> #[trigger] bitmap_bit(disk1, sb, h)
                    &&& !short ==> forall|p: int|
                        0 <= p && !(off <= p < off + 22) && ptr(d0, p / bs) != 0 && out_of_reach(disk0, d0, sb, first, first + nr, p)
                            && ptr(d0, p / bs) != inode_block_of(sb, i0) && ptr(d0, p / bs) != inode_block_of(sb, inum as int)
                            ==> #[trigger] file_byte(disk1, bs, d1, p) == file_byte(disk0, bs, d0, p)
                }
                &&& ready && dir_ok && sound && lookup_index(disk0, sb, d0, name@) is None && short ==> (r matches Err(PathError::Backend(DirectoryError::Backend(InodeRWError::OutOfBlocks(_)))))
                &&& ready && dir_ok && sound && lookup_index(disk0, sb, d0, name@) is None && !short ==> ({
                    let disk1 = final(self).disk();
                    let d1 = final(inode).disk_node@;
                    &&& r matches Ok(o) && o == off
                    &&& d1.size == (if d0.size < off + 22 { off + 22 } else { d0.size as int })
                    &&& d1.ft == d0.ft && d1.nlink == d0.nlink
                    &&& entry_at(disk1, bs, d1, off) == new_entry(inum, name@)
                    &&& forall|k: int| 0 <= k < entry_count(d0) && (k * 22 + 22 <= off || off + 22 <= k * 22) ==> #[trigger] dir_entry(disk1, bs, d1, k) == dir_entry(disk0, bs, d0, k)
                    &&& blocks_sound(disk1, sb, d1)
                    &&& data_readable(d1, sb)
                    &&& disk_inode(disk1, sb, i0) == (if d0.size < off + 22 { Some(d1) } else { Some(d0) })
                    &&& inum != i0 ==> disk_inode(disk1, sb, inum as int) == Some(with_nlink(tgt.unwrap(), tgt.unwrap().nlink + 1))
                    &&& forall|j: int| 0 <= j && inode_in_range(sb, j) && j != i0 && j != inum ==> #[trigger] disk_inode(disk1, sb, j) == disk_inode(disk0, sb, j)
                    &&& forall|b: int| held(disk0, sb, b) && !pointed(d0, 0, 12, b)
                        ==> #[trigger] disk1[b] == disk0[b]
                    &&& forall|h: int| 0 <= h < sb.ndatablocks && bitmap_bit(disk0, sb, h) ==> #[trigger] bitmap_bit(disk1, sb, h)
                    &&& forall|j: int| 0 <= j < 12 && ptr(d0, j) == 0 && ptr(d1, j) != 0 ==> sb.datastart <= #[trigger] ptr(d1, j) < sb.datastart + sb.ndatablocks && !bitmap_bit(disk0, sb, ptr(d1, j) - sb.datastart)
                    &&& forall|j: int| ptr(d0, j) != 0 ==> #[trigger] ptr(d1, j) == ptr(d0, j)
                    &&& free_below(disk1, sb, sb.ndatablocks as int) + missing_ptrs(d0, first, first + nr) == free_below(disk0, sb, sb.ndatablocks as int)
                })
            }),
    {
        let r = match self.dfs.dirlink(inode, name, inum) {
            Ok(v) => Ok(v),
            Err(e) => Err(PathError::Backend(e)),
        };
        assert(self.cwd() == old(self).cwd());
        r
    }
}


/// What looking `name` up in directory `i` with disk inode `d` finds on
/// `disk`: the entry's inode number and disk inode, when the directory is
/// consistent with the disk, has an entry of that name, and that entry's
/// inode reads.
pub open spec fn lookup_step(disk: Seq<Seq<u8>>, sb: SuperBlock, i: int, d: DInodeView, name: Seq<char>) -> Option<(int, DInodeView)> {
    if d.ft == FType::TDir && inode_in_range(sb, i) && disk_inode(disk, sb, i) == Some(d) {
        match lookup_index(disk, sb, d, name) {
            Some(k) => {
                let e = dir_entry(disk, sb.block_size as int, d, k).inum as int;
                if inode_in_range(sb, e) && disk_inode(disk, sb, e) is Some {
                    Some((e, disk_inode(disk, sb, e).unwrap()))
                } else {
                    None
                }
            },
            None => None,
        }
    } else {
        None
    }
}

/// Looking the names up one after the other from directory `i`.
pub open spec fn walk(disk: Seq<Seq<u8>>, sb: SuperBlock, i: int, d: DInodeView, names: Seq<Seq<char>>) -> Option<(int, DInodeView)>
    decreases names.len(),
{
    if names.len() == 0 {
        Some((i, d))
    } else {
        match lookup_step(disk, sb, i, d, names[0]) {
            Some((e, de)) => walk(disk, sb, e, de, names.drop_first()),
            None => None,
        }
    }
}

/// The names a path is resolved along from the root: the working
/// directory's names first when its first piece is `.` or `..`.
pub open spec fn resolve_names(cwd: Seq<Seq<char>>, ps: Seq<Seq<char>>) -> Seq<Seq<char>> {
    if ps.len() > 0 && (ps[0] == seq!['.'] || ps[0] == seq!['.', '.']) {
        cwd + ps
    } else {
        ps
    }
}

/// What resolving the path `s` finds on `disk`, from the root (inode 1).
pub open spec fn resolve(disk: Seq<Seq<u8>>, sb: SuperBlock, cwd: Seq<Seq<char>>, s: Seq<char>) -> Option<(int, DInodeView)> {
    if inode_in_range(sb, 1) && disk_inode(disk, sb, 1) is Some {
        walk(disk, sb, 1, disk_inode(disk, sb, 1).unwrap(), resolve_names(cwd, pieces(s)))
    } else {
        None
    }
}

/// A directory that can be read whole and written.
pub open spec fn dir_ok(disk: Seq<Seq<u8>>, sb: SuperBlock, d: DInodeView) -> bool {
    &&& data_readable(d, sb)
    &&& blocks_sound(disk, sb, d)
    &&& d.size + 22 <= usize::MAX
}

/// Every directory on the disk can be read whole and written.
pub open spec fn dirs_ok(disk: Seq<Seq<u8>>, sb: SuperBlock) -> bool {
    forall|j: int|
        0 <= j && inode_in_range(sb, j) && (#[trigger] disk_inode(disk, sb, j) matches Some(d) && d.ft == FType::TDir)
            ==> dir_ok(disk, sb, disk_inode(disk, sb, j).unwrap())
}

/// The block pointers of `d` lie on the device.
pub open spec fn ptrs_on_device(d: DInodeView, sb: SuperBlock) -> bool {
    forall|j: int| #[trigger] ptr(d, j) < sb.nblocks
}

/// Every directory on the disk can be read whole, and its block pointers lie
/// on the device.
pub open spec fn dirs_readable(disk: Seq<Seq<u8>>, sb: SuperBlock) -> bool {
    forall|j: int|
        0 <= j && inode_in_range(sb, j) && (#[trigger] disk_inode(disk, sb, j) matches Some(d) && d.ft == FType::TDir)
            ==> data_readable(disk_inode(disk, sb, j).unwrap(), sb) && ptrs_on_device(disk_inode(disk, sb, j).unwrap(), sb)
}

/// What `mkdir` leaves keeps every directory readable: the parent `pi`
/// changes into what linking the new entry made of it (`pd1`, or `pd` when
/// that wrote no inode) with one link more, the new directory `n` is
/// readable, and no other inode changes.
proof fn lemma_mkdir_keeps_readable(
    d0: Seq<Seq<u8>>,
    d2: Seq<Seq<u8>>,
    d4: Seq<Seq<u8>>,
    sb: SuperBlock,
    pi: int,
    pd: DInodeView,
    pd1: DInodeView,
    t3: DInodeView,
    n: int,
    nd: DInodeView,
)
    requires
        sb_valid_spec(sb),
        dirs_readable(d0, sb),
        dir_ok(d0, sb, pd),
        data_readable(pd1, sb),
        blocks_sound(d2, sb, pd1),
        t3 == pd1 || t3 == pd,
        disk_inode(d4, sb, pi) == Some(with_nlink(t3, t3.nlink + 1)),
        disk_inode(d4, sb, n) == Some(nd),
        data_readable(nd, sb),
        blocks_sound(d4, sb, nd),
        forall|j: int| 0 <= j && inode_in_range(sb, j) && j != pi && j != n ==> #[trigger] disk_inode(d4, sb, j) == disk_inode(d0, sb, j),
    ensures
        dirs_readable(d4, sb),
{
    lemma_sound_on_device(d4, sb, nd);
    lemma_sound_on_device(d2, sb, pd1);
    lemma_sound_on_device(d0, sb, pd);
    let pdf = with_nlink(t3, t3.nlink + 1);
    assert forall|j: int|
        0 <= j && inode_in_range(sb, j) && (#[trigger] disk_inode(d4, sb, j) matches Some(d) && d.ft == FType::TDir)
        implies data_readable(disk_inode(d4, sb, j).unwrap(), sb) && ptrs_on_device(disk_inode(d4, sb, j).unwrap(), sb) by {
        if j == pi {
            assert(forall|x: int| #[trigger] ptr(pdf, x) == ptr(t3, x));
        } else if j != n {
            assert(disk_inode(d4, sb, j) == disk_inode(d0, sb, j));
        }
    }
}

/// The block pointers of a file whose pointers are sound lie on the device.
proof fn lemma_sound_on_device(disk: Seq<Seq<u8>>, sb: SuperBlock, d: DInodeView)
    requires
        sb_valid_spec(sb),
        blocks_sound(disk, sb, d),
    ensures
        ptrs_on_device(d, sb),
{
    assert forall|x: int| #[trigger] ptr(d, x) < sb.nblocks by {
        if 0 <= x < 12 && ptr(d, x) != 0 {
            assert(ptr(d, x) < sb.nblocks);
        }
    }
}

/// Every directory that walking `names` from directory `i` (disk inode `d`)
/// looks an entry up in, on `disk`, can be read whole.
pub open spec fn walk_readable(disk: Seq<Seq<u8>>, sb: SuperBlock, i: int, d: DInodeView, names: Seq<Seq<char>>) -> bool
    decreases names.len(),
{
    names.len() > 0 ==> {
        &&& d.ft == FType::TDir && inode_in_range(sb, i) && disk_inode(disk, sb, i) == Some(d) ==> data_readable(d, sb)
        &&& match lookup_step(disk, sb, i, d, names[0]) {
            Some((e, de)) => walk_readable(disk, sb, e, de, names.drop_first()),
            None => true,
        }
    }
}

/// Every directory that resolving the path `s` looks an entry up in can be
/// read whole.
pub open spec fn resolve_readable(disk: Seq<Seq<u8>>, sb: SuperBlock, cwd: Seq<Seq<char>>, s: Seq<char>) -> bool {
    inode_in_range(sb, 1) && disk_inode(disk, sb, 1) is Some ==> walk_readable(
        disk,
        sb,
        1,
        disk_inode(disk, sb, 1).unwrap(),
        resolve_names(cwd, pieces(s)),
    )
}

/// The directory the path `s` resolves to, if it is one, can be read whole.
pub open spec fn target_readable(disk: Seq<Seq<u8>>, sb: SuperBlock, cwd: Seq<Seq<char>>, s: Seq<char>) -> bool {
    resolve(disk, sb, cwd, s) matches Some((_, d)) ==> (d.ft == FType::TDir ==> data_readable(d, sb))
}

/// Every directory on the disk that can be read whole makes every walk over
/// it readable.
proof fn lemma_readable_walk(disk: Seq<Seq<u8>>, sb: SuperBlock, i: int, d: DInodeView, names: Seq<Seq<char>>)
    requires
        dirs_readable(disk, sb),
        0 <= i,
    ensures
        walk_readable(disk, sb, i, d, names),
    decreases names.len(),
{
    if names.len() > 0 {
        if d.ft == FType::TDir && inode_in_range(sb, i) && disk_inode(disk, sb, i) == Some(d) {
            assert(disk_inode(disk, sb, i) matches Some(dd) && dd.ft == FType::TDir);
        }
        if let Some((e, de)) = lookup_step(disk, sb, i, d, names[0]) {
            lemma_readable_walk(disk, sb, e, de, names.drop_first());
        }
    }
}

/// When every directory on the disk can be read whole, so can every
/// directory that resolving a path looks in, and the one it resolves to.
pub proof fn lemma_readable_resolve(disk: Seq<Seq<u8>>, sb: SuperBlock, cwd: Seq<Seq<char>>, s: Seq<char>)
    requires
        dirs_readable(disk, sb),
    ensures
        resolve_readable(disk, sb, cwd, s),
        target_readable(disk, sb, cwd, s),
{
    if inode_in_range(sb, 1) && disk_inode(disk, sb, 1) is Some {
        lemma_readable_walk(disk, sb, 1, disk_inode(disk, sb, 1).unwrap(), resolve_names(cwd, pieces(s)));
    }
    if resolve(disk, sb, cwd, s) is Some {
        lemma_resolve_on_disk(disk, sb, cwd, s);
        let (e, d) = resolve(disk, sb, cwd, s).unwrap();
        if d.ft == FType::TDir {
            assert(disk_inode(disk, sb, e) matches Some(dd) && dd.ft == FType::TDir);
        }
    }
}

/// Directories that can be written can be read.
proof fn lemma_dirs_ok_readable(disk: Seq<Seq<u8>>, sb: SuperBlock)
    requires
        sb_valid_spec(sb),
        dirs_ok(disk, sb),
    ensures
        dirs_readable(disk, sb),
{
    assert forall|j: int| 0 <= j && inode_in_range(sb, j) && (#[trigger] disk_inode(disk, sb, j) matches Some(d) && d.ft == FType::TDir)
        implies data_readable(disk_inode(disk, sb, j).unwrap(), sb) && ptrs_on_device(disk_inode(disk, sb, j).unwrap(), sb) by {
        let d = disk_inode(disk, sb, j).unwrap();
        assert(dir_ok(disk, sb, d));
        assert forall|x: int| #[trigger] ptr(d, x) < sb.nblocks by {
            if 0 <= x < 12 && ptr(d, x) != 0 {
                assert(ptr(d, x) < sb.nblocks);
            }
        }
    }
}

/// Number of entries among the first `k` of a directory that are in use
/// (inode number not zero).
pub open spec fn used_entries(disk: Seq<Seq<u8>>, bs: int, d: DInodeView, k: int) -> nat
    decreases k,
{
    if k <= 0 {
        0
    } else {
        used_entries(disk, bs, d, k - 1) + if dir_entry(disk, bs, d, k - 1).inum != 0 {
            1nat
        } else {
            0nat
        }
    }
}

/// The entries among the first `k` whose inode number is not zero.
pub open spec fn used_set(disk: Seq<Seq<u8>>, bs: int, d: DInodeView, k: int) -> Set<int> {
    Set::new(|j: int| 0 <= j < k && dir_entry(disk, bs, d, j).inum != 0)
}

/// The count of used entries among the first `k` is the number of entries
/// among them whose inode number is not zero, wherever the free entries lie.
pub proof fn lemma_used_entries_count(disk: Seq<Seq<u8>>, bs: int, d: DInodeView, k: int)
    requires
        0 <= k,
    ensures
        used_set(disk, bs, d, k).finite(),
        used_entries(disk, bs, d, k) == used_set(disk, bs, d, k).len(),
    decreases k,
{
    if k == 0 {
        assert(used_set(disk, bs, d, 0) =~= Set::<int>::empty());
    } else {
        lemma_used_entries_count(disk, bs, d, k - 1);
        let prev = used_set(disk, bs, d, k - 1);
        if dir_entry(disk, bs, d, k - 1).inum != 0 {
            assert(used_set(disk, bs, d, k) =~= prev.insert(k - 1));
            assert(!prev.contains(k - 1));
        } else {
            assert(used_set(disk, bs, d, k) =~= prev);
        }
    }
}

/// Clearing one used entry of a directory (its inode number becomes zero)
/// while every other entry keeps its inode number lowers the count of used
/// entries by exactly one: the entries after it are still counted.
pub proof fn lemma_clear_uncounts_one(
    disk0: Seq<Seq<u8>>,
    d0: DInodeView,
    disk1: Seq<Seq<u8>>,
    d1: DInodeView,
    bs: int,
    j: int,
)
    requires
        entry_count(d1) == entry_count(d0),
        0 <= j < entry_count(d0),
        dir_entry(disk0, bs, d0, j).inum != 0,
        dir_entry(disk1, bs, d1, j).inum == 0,
        forall|k: int| 0 <= k < entry_count(d0) && k != j ==> #[trigger] dir_entry(disk1, bs, d1, k).inum == dir_entry(disk0, bs, d0, k).inum,
    ensures
        used_entries(disk1, bs, d1, entry_count(d1)) + 1 == used_entries(disk0, bs, d0, entry_count(d0)),
{
    let n = entry_count(d0);
    lemma_used_entries_count(disk0, bs, d0, n);
    lemma_used_entries_count(disk1, bs, d1, n);
    let s0 = used_set(disk0, bs, d0, n);
    let s1 = used_set(disk1, bs, d1, n);
    assert(s1 =~= s0.remove(j)) by {
        assert forall|k: int| #[trigger] s1.contains(k) <==> s0.remove(j).contains(k) by {
            if 0 <= k < n && k != j {
                assert(dir_entry(disk1, bs, d1, k).inum == dir_entry(disk0, bs, d0, k).inum);
            }
        }
    }
    assert(s0.contains(j));
}

/// The message of a failed lookup: the name followed by `what`.
pub open spec fn lookup_message(name: Seq<char>, what: Seq<char>) -> Seq<char> {
    name + what
}

impl EsFS4 {
    /// Looks `dirname` up in directory `inode` and gives the inode it names.
    /// Fails with a `Lookup` message when `inode` is not a directory or not
    /// the one on disk (`... is not a directory.`) or has no such entry
    /// (`... could not be found.`); otherwise fails as the lookup does.
    pub fn lookup_dirname_inode(&self, inode: &Inode, dirname: &str) -> (r: Result<Inode, PathError>)
        requires
            self.inv(),
            inode.disk_node.ft == FType::TDir ==> inode_usable(self.sb(), inode.inum as int),
            inode.disk_node.ft == FType::TDir && inode_in_range(self.sb(), inode.inum as int)
                && disk_inode(self.disk(), self.sb(), inode.inum as int) == Some(inode.disk_node@)
                ==> data_readable(inode.disk_node@, self.sb()),
        ensures
            r is Ok <==> lookup_step(self.disk(), self.sb(), inode.inum as int, inode.disk_node@, dirname@) is Some,
            r matches Ok(ino) ==> Some((ino.inum as int, ino.disk_node@)) == lookup_step(self.disk(), self.sb(), inode.inum as int, inode.disk_node@, dirname@),
            ({
                let sb = self.sb();
                let disk = self.disk();
                let d = inode.disk_node@;
                let i = inode.inum as int;
                let on_disk = disk_inode(disk, sb, i);
                let is_dir = inode.disk_node.ft == FType::TDir;
                let not_dir = lookup_message(dirname@, " is not a directory."@);
                &&& !is_dir ==> (r matches Err(PathError::Lookup(m)) && m@ == not_dir)
                &&& is_dir && !inode_in_range(sb, i) ==> (r matches Err(PathError::Backend(DirectoryError::Backend(InodeRWError::Inode(InodeError::Bounds)))))
                &&& is_dir && inode_in_range(sb, i) && on_disk is None ==> (r matches Err(PathError::Backend(DirectoryError::Backend(InodeRWError::Inode(InodeError::API(_))))))
                &&& is_dir && inode_in_range(sb, i) && on_disk is Some && on_disk != Some(d) ==> (r matches Err(PathError::Lookup(m)) && m@ == not_dir)
                &&& is_dir && inode_in_range(sb, i) && on_disk == Some(d) ==> match lookup_index(disk, sb, d, dirname@) {
                    None => (r matches Err(PathError::Lookup(m)) && m@ == lookup_message(dirname@, " could not be found."@)),
                    Some(k) => {
                        let e = dir_entry(disk, sb.block_size as int, d, k).inum as int;
                        &&& !inode_in_range(sb, e) ==> (r matches Err(PathError::Backend(DirectoryError::Backend(InodeRWError::Inode(InodeError::Bounds)))))
                        &&& inode_in_range(sb, e) && disk_inode(disk, sb, e) is None ==> (r matches Err(PathError::Backend(DirectoryError::Backend(InodeRWError::Inode(InodeError::API(_))))))
                        &&& inode_in_range(sb, e) && disk_inode(disk, sb, e) is Some ==> (r matches Ok(ino) && ino.inum == e
                            && Some(ino.disk_node@) == disk_inode(disk, sb, e))
                    },
                }
            }),
    {
        match self.dirlookup(inode, dirname) {
            Err(PathError::Backend(DirectoryError::IllegalInode(_))) => {
                let mut err_msg = String::new();
                err_msg.append(dirname);
                err_msg.append(" is not a directory.");
                Err(PathError::Lookup(err_msg))
            },
            Err(PathError::Backend(DirectoryError::ItemNotFound)) => {
                let mut err_msg = String::new();
                err_msg.append(dirname);
                err_msg.append(" could not be found.");
                Err(PathError::Lookup(err_msg))
            },
            Err(e) => Err(e),
            Ok((found_inode, _)) => Ok(found_inode),
        }
    }

    /// Resolves `path` to the inode it names: from the root (`/` alone names
    /// the root), through the working directory first when the path starts
    /// with `.` or `..` (see [`resolve`]). Fails with `Path` when `path` is not a valid path, and
    /// otherwise as a lookup on the way fails.
    pub fn resolve_path(&self, path: &str) -> (r: Result<Inode, PathError>)
        requires
            self.inv(),
            path_ok(path@) ==> resolve_readable(self.disk(), self.sb(), self.cwd(), path@),
        ensures
            !path_ok(path@) ==> r matches Err(PathError::Path(_)),
            path_ok(path@) ==> (r is Ok <==> resolve(self.disk(), self.sb(), self.cwd(), path@) is Some),
            r matches Ok(ino) ==> Some((ino.inum as int, ino.disk_node@)) == resolve(self.disk(), self.sb(), self.cwd(), path@),
            r is Err ==> (r matches Err(PathError::Path(_))) || (r matches Err(PathError::Lookup(_))) || (r matches Err(PathError::Backend(_))),
    {
        let path_dirnames = match into_dirnames(path) {
            Some(v) => v,
            None => return Err(PathError::Path("invalid format.")),
        };
        let ghost disk = self.disk();
        let ghost sb = self.sb();
        let ghost ps = str_views(path_dirnames@);
        let ghost all = resolve_names(self.cwd(), ps);
        let mut curr_inode = match self.i_get(1) {
            Ok(ino) => ino,
            Err(e) => return Err(e),
        };
        proof {
            if ps.len() > 0 {
                assert(ps[0] == path_dirnames@[0]@);
            }
            assert(all.subrange(0, all.len() as int) =~= all);
        }
        let mut k: usize = 0;
        if path_dirnames.len() > 0 && (is_dot(path_dirnames[0]) || is_dotdot(path_dirnames[0])) {
            while k < self.cwd.len()
                invariant
                    self.inv(),
                    self.disk() == disk,
                    self.sb() == sb,
                    inodes_per_block(sb) > 0,
                    walk_readable(disk, sb, curr_inode.inum as int, curr_inode.disk_node@, all.subrange(k as int, all.len() as int)),
                    path_ok(path@),
                    k <= self.cwd@.len(),
                    self.cwd@.len() == self.cwd().len(),
                    all == self.cwd() + ps,
                    inode_in_range(sb, curr_inode.inum as int),
                    disk_inode(disk, sb, curr_inode.inum as int) == Some(curr_inode.disk_node@),
                    resolve(disk, sb, self.cwd(), path@) == walk(disk, sb, curr_inode.inum as int, curr_inode.disk_node@, all.subrange(k as int, all.len() as int)),
                decreases self.cwd@.len() - k,
            {
                let dirname = self.cwd[k].as_str();
                proof {
                    assert(all.subrange(k as int, all.len() as int)[0] == dirname@);
                    assert(all.subrange(k as int, all.len() as int).drop_first() =~= all.subrange(k + 1, all.len() as int));
                }
                curr_inode = match self.lookup_dirname_inode(&curr_inode, dirname) {
                    Ok(ino) => ino,
                    Err(e) => return Err(e),
                };
                k = k + 1;
            }
        }
        let ghost base = k as int;
        proof {
            assert(base + ps.len() == all.len());
            assert forall|j: int| 0 <= j < ps.len() implies #[trigger] all[base + j] == ps[j] by {}
        }
        let mut x: usize = 0;
        while x < path_dirnames.len()
            invariant
                self.inv(),
                self.disk() == disk,
                self.sb() == sb,
                inodes_per_block(sb) > 0,
                walk_readable(disk, sb, curr_inode.inum as int, curr_inode.disk_node@, all.subrange(base + x, all.len() as int)),
                x <= path_dirnames@.len(),
                path_ok(path@),
                ps == str_views(path_dirnames@),
                ps.len() == path_dirnames@.len(),
                0 <= base,
                base + ps.len() == all.len(),
                forall|j: int| 0 <= j < ps.len() ==> #[trigger] all[base + j] == ps[j],
                inode_in_range(sb, curr_inode.inum as int),
                disk_inode(disk, sb, curr_inode.inum as int) == Some(curr_inode.disk_node@),
                resolve(disk, sb, self.cwd(), path@) == walk(disk, sb, curr_inode.inum as int, curr_inode.disk_node@, all.subrange(base + x, all.len() as int)),
            decreases path_dirnames@.len() - x,
        {
            let dirname = path_dirnames[x];
            proof {
                assert(all.subrange(base + x, all.len() as int)[0] == dirname@);
                assert(all.subrange(base + x, all.len() as int).drop_first() =~= all.subrange(base + x + 1, all.len() as int));
            }
            curr_inode = match self.lookup_dirname_inode(&curr_inode, dirname) {
                Ok(ino) => ino,
                Err(e) => return Err(e),
            };
            x = x + 1;
        }
        Ok(curr_inode)
    }

    /// Number of entries in use (inode number not zero) of directory
    /// `inode`; `None` when `inode` is not a directory.
    pub fn count_entries(&self, inode: &Inode) -> (r: Option<u64>)
        requires
            self.inv(),
            inode.disk_node.ft == FType::TDir ==> data_readable(inode.disk_node@, self.sb()),
        ensures
            r is Some <==> inode.disk_node.ft == FType::TDir,
            r matches Some(c) ==> c == used_entries(self.disk(), self.sb().block_size as int, inode.disk_node@, entry_count(inode.disk_node@)),
    {
        let ghost bs = self.sb().block_size as int;
        let ghost d = inode.disk_node@;
        let mut it = match crate::c_dirs_support::DirEntryIterator::new(&self.dfs, inode) {
            Ok(it) => it,
            Err(_) => return None,
        };
        let mut num_entries: u64 = 0;
        let mut de_i: u64 = 0;
        loop
            invariant
                it.wf(),
                it.fs() == &self.dfs,
                it.inode() == inode,
                it.pos() == de_i,
                inode.disk_node@ == d,
                bs == self.sb().block_size,
                de_i <= entry_count(d),
                d.ft == FType::TDir,
                num_entries == used_entries(self.disk(), bs, d, de_i as int),
                num_entries <= de_i,
            decreases entry_count(d) - de_i,
        {
            match it.next() {
                Some(de) => {
                    if de.inum != 0 {
                        num_entries = num_entries + 1;
                    }
                    de_i = de_i + 1;
                },
                None => {
                    return Some(num_entries);
                },
            }
        }
    }
}


/// With no bit of the bitmap set below `k`, all `k` data blocks are free.
proof fn lemma_free_all_below(disk: Seq<Seq<u8>>, sb: SuperBlock, k: int)
    requires
        0 <= k,
        forall|g: int| 0 <= g < k ==> !#[trigger] bitmap_bit(disk, sb, g),
    ensures
        free_below(disk, sb, k) == k,
    decreases k,
{
    if k > 0 {
        lemma_free_all_below(disk, sb, k - 1);
    }
}

/// The entries of the root directory of a new file system.
pub open spec fn root_entries_ok(disk: Seq<Seq<u8>>, sb: SuperBlock, d: DInodeView) -> bool {
    &&& d.ft == FType::TDir
    &&& d.nlink == 1
    &&& d.size == 44
    &&& dir_entry(disk, sb.block_size as int, d, 0) == new_entry(1, seq!['.'])
    &&& dir_entry(disk, sb.block_size as int, d, 1) == new_entry(1, seq!['.', '.'])
}

impl EsFS4 {
    /// Creates a file system described by `sb` (as the directory layer does)
    /// whose root directory holds the entries `.` and `..`, both naming the
    /// root; the working directory is the root. Fails when `sb` is not valid
    /// or has no inode 1, or when no data block is free for the root's entries.
    pub fn mkfs(sb: &SuperBlock) -> (r: Result<EsFS4, PathError>)
        ensures
            r is Ok <==> sb_usable(*sb) && sb.ninodes > 1 && sb.ndatablocks > 0,
            !sb_usable(*sb) ==> r matches Err(PathError::Backend(DirectoryError::Backend(InodeRWError::Inode(InodeError::Block(BlockError::InitError(_)))))),
            sb_usable(*sb) && sb.ninodes <= 1 ==> r matches Err(PathError::Backend(DirectoryError::Backend(InodeRWError::Inode(InodeError::Bounds)))),
            sb_usable(*sb) && sb.ninodes > 1 && sb.ndatablocks == 0 ==> r matches Err(PathError::Backend(DirectoryError::Backend(InodeRWError::OutOfBlocks(_)))),
            r matches Ok(fs) ==> {
                &&& fs.inv()
                &&& fs.sb() == *sb
                &&& fs.cwd() == Seq::<Seq<char>>::empty()
                &&& disk_inode(fs.disk(), *sb, 1) is Some
                &&& root_entries_ok(fs.disk(), *sb, disk_inode(fs.disk(), *sb, 1).unwrap())
                &&& forall|j: int| 0 <= j < sb.ninodes && j != 1 ==> #[trigger] disk_inode(fs.disk(), *sb, j) == Some(free_dinode())
                &&& dirs_ok(fs.disk(), *sb)
                &&& dirs_readable(fs.disk(), *sb)
            },
    {
        let dfs = match EsFS3::mkfs(sb) {
            Ok(fs) => fs,
            Err(e) => return Err(PathError::Backend(e)),
        };
        let mut new_fs = EsFS4 { dfs, cwd: Vec::new() };
        let ghost disk0 = new_fs.disk();
        let ghost bs = sb.block_size as int;
        proof {
            assert(new_fs.cwd() =~= Seq::<Seq<char>>::empty());
            crate::a_block_support::lemma_sb_bounds(*sb);
            assert(inodes_per_block(*sb) > 0);
            assert forall|g: int| 0 <= g < sb.ndatablocks implies !#[trigger] bitmap_bit(disk0, *sb, g) by {
                crate::a_block_support::lemma_bitmap_block_in_region(*sb, g);
                let blk = crate::a_block_support::bmap_block_of(*sb, g);
                assert(disk0[blk] == zeros(sb.block_size as nat));
                let k = g % crate::a_block_support::bits_per_block(*sb);
                let j = (k % 8) as u8;
                assert(((0u8 >> j) & 1u8) == 0u8) by (bit_vector);
            }
            lemma_free_all_below(disk0, *sb, sb.ndatablocks as int);
        }
        let mut iroot = match new_fs.i_get(1) {
            Ok(ino) => ino,
            Err(e) => return Err(e),
        };
        let ghost d0 = iroot.disk_node@;
        proof {
            assert(d0 == root_dinode());
            assert(crate::e_inode_rw_support::ptr(d0, 0) == 0);
            assert(entry_count(d0) == 0);
            assert(find_free(disk0, bs, d0, 0) is None);
            assert(lookup_index(disk0, *sb, d0, seq!['.']) is None);
            assert(missing_ptrs(d0, 0, 1) == 1) by {
                assert(missing_ptrs(d0, 0, 0) == 0);
            }
            assert(data_readable(d0, *sb)) by {
                assert(ceil_div_zero(bs));
            }
            assert(blocks_sound(disk0, *sb, d0));
            reveal_strlit(".");
            reveal_strlit("..");
            assert(("."@) =~= seq!['.']);
            assert(valid_dirname(seq!['.']));
            assert(link_offset(disk0, bs, d0) == 0);
            assert(write_range_count(22, 0, bs) == 1);
        }
        match new_fs.dirlink(&mut iroot, ".", 1) {
            Ok(_) => {},
            Err(e) => return Err(e),
        }
        let ghost disk1 = new_fs.disk();
        let ghost d1 = iroot.disk_node@;
        proof {
            crate::c_dirs_support::lemma_name_round_trip(seq!['.']);
            assert(dir_entry(disk1, bs, d1, 0) == entry_at(disk1, bs, d1, 0));
            assert(name_text(dir_entry(disk1, bs, d1, 0).name) == seq!['.']);
            assert(seq!['.'] != seq!['.', '.']) by {
                assert(seq!['.'].len() != seq!['.', '.'].len());
            }
            assert(find_name(disk1, bs, d1, seq!['.', '.'], 1) is None);
            assert(lookup_index(disk1, *sb, d1, seq!['.', '.']) is None);
            assert(find_free(disk1, bs, d1, 1) is None);
            assert(find_free(disk1, bs, d1, 0) is None);
            vstd::arithmetic::div_mod::lemma_small_mod(22, bs as nat);
            vstd::arithmetic::div_mod::lemma_basic_div(22, bs);
            assert(crate::a_block_support::ceil_div(d1.size as int, bs) == 1);
            assert(crate::e_inode_rw_support::ptr(d1, 0) != 0);
            assert(link_offset(disk1, bs, d1) == 22);
            assert(22int / bs == 0 && 22int % bs == 22);
            assert(write_range_count(22, 22, bs) == 1);
            assert(("..")@ =~= seq!['.', '.']);
            assert(missing_ptrs(d1, 0, 1) == 0) by {
                assert(missing_ptrs(d1, 0, 0) == 0);
            }
            assert(valid_dirname(seq!['.', '.']));
        }
        match new_fs.dirlink(&mut iroot, "..", 1) {
            Ok(_) => {},
            Err(e) => return Err(e),
        }
        proof {
            let disk2 = new_fs.disk();
            let d2 = iroot.disk_node@;
            assert(dir_entry(disk2, bs, d2, 1) == entry_at(disk2, bs, d2, 22));
            assert(d2.size == 44);
            assert(d2.nlink == 1);
            assert(d2.ft == FType::TDir);
            assert(dir_entry(disk2, bs, d2, 0) == dir_entry(disk1, bs, d1, 0));
            assert(dir_entry(disk2, bs, d2, 0) == new_entry(1, seq!['.']));
            assert(dir_entry(disk2, bs, d2, 1) == new_entry(1, seq!['.', '.']));
            assert(disk_inode(disk2, *sb, 1) == Some(d2));
            assert(new_fs.cwd() == Seq::<Seq<char>>::empty());
            assert forall|j: int| 0 <= j < sb.ninodes && j != 1 implies #[trigger] disk_inode(disk2, *sb, j) == Some(free_dinode()) by {}
            assert forall|j: int| 0 <= j && inode_in_range(*sb, j) && (#[trigger] disk_inode(disk2, *sb, j) matches Some(d) && d.ft == FType::TDir)
                implies dir_ok(disk2, *sb, disk_inode(disk2, *sb, j).unwrap()) by {
                if j != 1 {
                    assert(disk_inode(disk2, *sb, j) == Some(free_dinode()));
                }
            }
        }
        proof {
            lemma_dirs_ok_readable(new_fs.disk(), *sb);
        }
        Ok(new_fs)
    }
}

/// A file of size zero has no block to read.
spec fn ceil_div_zero(bs: int) -> bool {
    crate::a_block_support::ceil_div(0, bs) == 0
}


/// The last piece of a text that does not end in `/` is its tail after a `/`
/// (or the whole text), and the text before that tail has the other pieces.
proof fn lemma_last_piece(s: Seq<char>)
    requires
        s.len() >= 1,
        s.last() != '/',
    ensures
        ({
            let ps = pieces(s);
            let q = s.len() - ps.last().len();
            &&& ps.len() >= 1
            &&& 0 <= q < s.len()
            &&& s.subrange(q, s.len() as int) == ps.last()
            &&& q == 0 || s[q - 1] == '/'
            &&& pieces(s.subrange(0, q)) == ps.drop_last()
            &&& forall|k: int| q <= k < s.len() ==> s[k] != '/'
        }),
    decreases s.len(),
{
    let ps = pieces(s);
    let c = s.last();
    let t = s.drop_last();
    lemma_pieces_nonempty(s);
    if s.len() >= 2 && s[s.len() - 2] != '/' {
        assert(t.last() == s[s.len() - 2]);
        lemma_last_piece(t);
        let p = pieces(t);
        let q = t.len() - p.last().len();
        assert(ps == p.update(p.len() - 1, p.last().push(c)));
        assert(ps.last() == p.last().push(c));
        assert(s.subrange(q, s.len() as int) =~= t.subrange(q, t.len() as int).push(c));
        assert(s.subrange(0, q) =~= t.subrange(0, q));
        assert(ps.drop_last() =~= p.drop_last());
        assert forall|k: int| q <= k < s.len() implies s[k] != '/' by {
            if k < t.len() {
                assert(s[k] == t[k]);
            }
        }
    } else {
        let p = pieces(t);
        assert(ps == p.push(seq![c]));
        assert(ps.last() == seq![c]);
        assert(s.subrange(s.len() - 1, s.len() as int) =~= seq![c]);
        assert(s.subrange(0, s.len() - 1) =~= t);
        assert(ps.drop_last() =~= p);
    }
}

/// The pieces of the dots before the first `/` of a valid path are valid names.
proof fn lemma_dot_pieces(s: Seq<char>)
    requires
        s.len() <= 2,
        forall|i: int| 0 <= i < s.len() ==> s[i] == '.',
    ensures
        forall|i: int| 0 <= i < pieces(s).len() ==> valid_dirname(#[trigger] pieces(s)[i]),
{
    let e = Seq::<char>::empty();
    assert(pieces(e).len() == 0);
    if s.len() == 1 {
        assert(s.drop_last() =~= e);
        assert(pieces(s) == seq![seq![s[0]]]);
        assert(seq![s[0]] =~= seq!['.']);
    } else if s.len() == 2 {
        let a = s.drop_last();
        assert(a.drop_last() =~= e);
        assert(pieces(a) == seq![seq![a[0]]]);
        assert(pieces(s) == pieces(a).update(0, seq![a[0]].push(s[1])));
        assert(seq![a[0]].push(s[1]) =~= seq!['.', '.']);
    } else {
        assert(s =~= e);
    }
}

/// The pieces of a valid path up to a `/` (or its end) past its leading dots
/// are valid names.
proof fn lemma_pieces_valid_prefix(s: Seq<char>, p: int, m: int)
    requires
        0 <= p <= 2,
        forall|i: int| 0 <= i < p ==> s[i] == '.',
        slashes_ok(s, p),
        p < m <= s.len(),
        m == s.len() || s[m] == '/',
    ensures
        forall|i: int| 0 <= i < pieces(s.subrange(0, m)).len() ==> valid_dirname(#[trigger] pieces(s.subrange(0, m))[i]),
    decreases m,
{
    let t = s.subrange(0, m);
    if t.last() == '/' {
        assert(t.drop_last() =~= s.subrange(0, m - 1));
        assert(pieces(t) == pieces(t.drop_last()));
        if m - 1 > p {
            lemma_pieces_valid_prefix(s, p, m - 1);
        } else {
            if m - 1 < p {
                assert(s[m - 1] == '.');
            }
            lemma_dot_pieces(s.subrange(0, m - 1));
        }
    } else {
        lemma_last_piece(t);
        let ps = pieces(t);
        let q = t.len() - ps.last().len();
        if q == 0 {
            assert(t[p] == '/');
            assert(false);
        }
        assert(t[q - 1] == '/');
        if q - 1 < p {
            assert(s[q - 1] == '.');
        }
        assert(no_slash_between(s, q - 1, m)) by {
            assert forall|k: int| q - 1 < k < m implies s[k] != '/' by {
                assert(t[k] == s[k]);
            }
        }
        assert(slash_at(s, q - 1));
        assert(s.len() != p + 1);
        assert(valid_dirname(segment(s, q - 1, m)));
        assert(segment(s, q - 1, m) =~= ps.last());
        let u = s.subrange(0, q);
        assert(t.subrange(0, q) =~= u);
        assert(u.last() == '/');
        assert(u.drop_last() =~= s.subrange(0, q - 1));
        assert(pieces(u) == pieces(u.drop_last()));
        if q - 1 > p {
            lemma_pieces_valid_prefix(s, p, q - 1);
        } else {
            lemma_dot_pieces(s.subrange(0, q - 1));
        }
        assert forall|i: int| 0 <= i < ps.len() implies valid_dirname(#[trigger] ps[i]) by {
            if i < ps.len() - 1 {
                assert(ps[i] == ps.drop_last()[i]);
            }
        }
    }
}

/// The pieces of a valid path are valid names.
pub proof fn lemma_pieces_valid(s: Seq<char>)
    requires
        path_ok(s),
    ensures
        forall|i: int| 0 <= i < pieces(s).len() ==> valid_dirname(#[trigger] pieces(s)[i]),
{
    if s == seq!['.'] || s == seq!['.', '.'] {
        lemma_dot_pieces(s);
    } else {
        let p = choose|p: int| 0 <= p <= 2 && (forall|i: int| 0 <= i < p ==> s[i] == '.') && #[trigger] slashes_ok(s, p);
        lemma_pieces_valid_prefix(s, p, s.len() as int);
        assert(s.subrange(0, s.len() as int) =~= s);
    }
}

/// A valid path of two pieces or more does not end in `/`, and the path to
/// its parent has the pieces before its last.
pub proof fn lemma_parent_pieces(s: Seq<char>)
    requires
        path_ok(s),
        pieces(s).len() >= 2,
    ensures
        pieces(parent_and_entry(s).0) == pieces(s).drop_last(),
{
    if s.len() >= 1 && s.last() == '/' {
        let p = choose|p: int| 0 <= p <= 2 && (forall|i: int| 0 <= i < p ==> #[trigger] s[i] == '.') && #[trigger] slashes_ok(s, p);
        if s.len() == p + 1 {
            let d = s.drop_last();
            assert(pieces(s) == pieces(d));
            assert(d.len() == p);
            let e = Seq::<char>::empty();
            assert(pieces(e).len() == 0);
            if p == 0 {
                assert(d =~= e);
            } else if p == 1 {
                assert(d.drop_last() =~= e);
                assert(pieces(d).len() == 1);
            } else {
                assert(d.drop_last().drop_last() =~= e);
                assert(d.drop_last().len() == 1);
                assert(pieces(d.drop_last()).len() == 1);
                assert(d[0] == '.');
                assert(d.len() >= 2 && d[d.len() - 2] != '/');
                assert(pieces(d).len() == 1);
            }
            assert(false);
        } else {
            assert(slash_at(s, s.len() - 1));
            assert(no_slash_between(s, s.len() - 1, s.len() as int));
            assert(valid_dirname(segment(s, s.len() - 1, s.len() as int)));
            assert(segment(s, s.len() - 1, s.len() as int) =~= Seq::<char>::empty());
            assert(false);
        }
    }
    assert(s.len() >= 1);
    lemma_last_piece(s);
    let ps = pieces(s);
    let q = s.len() - ps.last().len();
    if q == 0 {
        assert(s.subrange(0, 0) =~= Seq::<char>::empty());
        assert(pieces(Seq::<char>::empty()).len() == 0);
        assert(false);
    }
    let pre = s.subrange(0, s.len() - ps.last().len() - 1);
    assert(parent_and_entry(s).0 == pre);
    assert(s.subrange(0, q) =~= pre.push('/'));
    assert(pre.push('/').drop_last() =~= pre);
    assert(pieces(pre.push('/')) == pieces(pre));
}

/// Allocating an inode can walk the inodes: those up to the first free one
/// among `1 .. ninodes` read, and that free one has fewer links than a count
/// holds.
pub open spec fn alloc_walkable(disk: Seq<Seq<u8>>, sb: SuperBlock) -> bool {
    forall|j: int|
        1 <= j < sb.ninodes && (forall|k: int| 1 <= k < j ==> #[trigger] used_inode(disk, sb, k)) ==> (#[trigger] disk_inode(disk, sb, j) matches Some(d)
            && (d.ft == FType::TFree ==> d.nlink < u16::MAX))
}

/// A valid path with a last name, neither `.` nor `..`: one that names an
/// entry that `mkdir` can make or `unlink` can remove (`/` alone names none).
pub open spec fn entry_path(s: Seq<char>) -> bool {
    &&& path_ok(s)
    &&& pieces(s).len() > 0
    &&& parent_and_entry(s).1 != seq!['.']
    &&& parent_and_entry(s).1 != seq!['.', '.']
}




/// A walk that finds an inode finds one that lies on the disk as it read.
proof fn lemma_walk_on_disk(disk: Seq<Seq<u8>>, sb: SuperBlock, i: int, d: DInodeView, names: Seq<Seq<char>>)
    requires
        0 <= i,
        inode_in_range(sb, i),
        disk_inode(disk, sb, i) == Some(d),
        walk(disk, sb, i, d, names) is Some,
    ensures
        ({
            let (e, de) = walk(disk, sb, i, d, names).unwrap();
            0 <= e && inode_in_range(sb, e) && disk_inode(disk, sb, e) == Some(de)
        }),
    decreases names.len(),
{
    if names.len() > 0 {
        let (e, de) = lookup_step(disk, sb, i, d, names[0]).unwrap();
        lemma_walk_on_disk(disk, sb, e, de, names.drop_first());
    }
}

/// A path that resolves names an inode that lies on the disk as it read.
proof fn lemma_resolve_on_disk(disk: Seq<Seq<u8>>, sb: SuperBlock, cwd: Seq<Seq<char>>, s: Seq<char>)
    requires
        resolve(disk, sb, cwd, s) is Some,
    ensures
        ({
            let (e, de) = resolve(disk, sb, cwd, s).unwrap();
            0 <= e && inode_in_range(sb, e) && disk_inode(disk, sb, e) == Some(de)
        }),
{
    lemma_walk_on_disk(disk, sb, 1, disk_inode(disk, sb, 1).unwrap(), resolve_names(cwd, pieces(s)));
}

/// The blocks of the data region read the same on `a` and `b`.
pub open spec fn data_same(a: Seq<Seq<u8>>, b: Seq<Seq<u8>>, sb: SuperBlock) -> bool {
    &&& b.len() == a.len()
    &&& forall|blk: int| sb.datastart <= blk < a.len() ==> #[trigger] b[blk] == a[blk]
}

/// What `unlink` of the path `s` works on, when the path is valid, its last
/// name is neither `.` nor `..`, the path to its parent resolves to a
/// directory that has an entry of that name, and the entry names an inode
/// that reads: the parent's number and disk inode, the index of the entry,
/// and the number and disk inode of the inode the entry names.
pub open spec fn unlink_target(disk: Seq<Seq<u8>>, sb: SuperBlock, cwd: Seq<Seq<char>>, s: Seq<char>) -> Option<(int, DInodeView, int, int, DInodeView)> {
    let (pre, name) = parent_and_entry(s);
    if entry_path(s) && path_ok(pre) {
        match resolve(disk, sb, cwd, pre) {
            Some((pi, pd)) => if pd.ft == FType::TDir {
                match lookup_index(disk, sb, pd, name) {
                    Some(k) => {
                        let e = dir_entry(disk, sb.block_size as int, pd, k).inum as int;
                        if inode_in_range(sb, e) && disk_inode(disk, sb, e) is Some {
                            Some((pi, pd, k, e, disk_inode(disk, sb, e).unwrap()))
                        } else {
                            None
                        }
                    },
                    None => None,
                }
            } else {
                None
            },
            None => None,
        }
    } else {
        None
    }
}

/// Clearing entry `k` of the directory with disk inode `d` runs out of
/// blocks: the write of its bytes reaches past the pointer array, or needs
/// more blocks than the bitmap has free (see [`write_range_count`]).
pub open spec fn clear_short(disk: Seq<Seq<u8>>, sb: SuperBlock, d: DInodeView, k: int) -> bool {
    let bs = sb.block_size as int;
    let first = (k * 22) / bs;
    let nr = write_range_count(22, (k * 22) % bs, bs);
    first + nr > 12 || missing_ptrs(d, first, first + nr) > free_below(disk, sb, sb.ndatablocks as int)
}

/// The link count an inode with `n` links is left with after losing one; a
/// count of zero wraps round.
pub open spec fn one_link_less(n: u16) -> u16 {
    if n == 0 {
        u16::MAX
    } else {
        (n - 1) as u16
    }
}

/// Clearing entry `k` of a directory with sound block pointers leaves the
/// bitmap as it was, and, with only inode blocks and the bitmap written
/// afterwards, every data block but the ones holding the entry.
proof fn lemma_clear_data_frame(
    disk0: Seq<Seq<u8>>,
    disk1: Seq<Seq<u8>>,
    fin: Seq<Seq<u8>>,
    sb: SuperBlock,
    pi: int,
    pd: DInodeView,
    pd1: DInodeView,
    k: int,
    buf: Seq<u8>,
)
    requires
        sb_valid_spec(sb),
        sb.nblocks * (8 * sb.block_size) <= u64::MAX,
        inodes_per_block(sb) > 0,
        0 <= pi,
        inode_in_range(sb, pi),
        disk0.len() == sb.nblocks,
        data_readable(pd, sb),
        0 <= k,
        k * 22 + 22 <= pd.size,
        write_done(disk0, pd, disk1, pd1, sb, pi, k * 22, 22, buf),
        data_same(disk1, fin, sb),
    ensures
        fin.len() == disk0.len(),
        forall|b: int|
            sb.datastart <= b < disk0.len() && !pointed(pd, (k * 22) / (sb.block_size as int), (k * 22) / (sb.block_size as int)
                + write_range_count(22, (k * 22) % (sb.block_size as int), sb.block_size as int), b) ==> #[trigger] fin[b] == disk0[b],
        forall|h: int| 0 <= h < sb.ndatablocks ==> #[trigger] bitmap_bit(disk1, sb, h) == bitmap_bit(disk0, sb, h),
{
    let bs = sb.block_size as int;
    let first = (k * 22) / bs;
    let last = first + write_range_count(22, (k * 22) % bs, bs);
    crate::b_inode_support::lemma_inode_location(sb, pi);
    assert forall|j: int| first <= j < last implies #[trigger] ptr(pd, j) != 0 by {
        crate::write_model::lemma_pieces_within(k * 22, 22, bs, j);
        vstd::arithmetic::div_mod::lemma_div_pos_is_pos(k * 22, bs);
        crate::b_inode_support::lemma_mul_lt_ceil(j, pd.size as int, bs);
    }
    assert forall|b: int| sb.datastart <= b < disk0.len() && !pointed(pd, first, last, b) implies #[trigger] fin[b] == disk0[b] by {
        if pointed(pd1, first, last, b) {
            let j = choose|j: int| first <= j < last && #[trigger] ptr(pd1, j) == b;
            assert(ptr(pd, j) != 0);
            assert(ptr(pd1, j) == ptr(pd, j));
            assert(pointed(pd, first, last, b));
        }
        assert(disk1[b] == disk0[b]);
    }
    assert forall|h: int| 0 <= h < sb.ndatablocks implies #[trigger] bitmap_bit(disk1, sb, h) == bitmap_bit(disk0, sb, h) by {
        if crate::write_model::newly(pd, pd1, first, last, sb.datastart + h) {
            let j = choose|j: int| first <= j < last && ptr(pd, j) == 0 && #[trigger] ptr(pd1, j) == sb.datastart + h;
            assert(ptr(pd, j) != 0);
        }
    }
}

/// `d1` is what a successful `unlink` leaves of `d0`, when it removed entry
/// `k` of directory `pi` (disk inode `pd`), which named inode `e` (disk inode
/// `rd`): the bytes of the entry are zero and the other entries are as they
/// were; unless the entry named the directory itself, inode `e` has one link
/// less, and when that leaves it none, it is freed with its data blocks, and,
/// when it is a directory, the directory that its entry `..` names, if it has
/// one, has one link less too. No other inode changes.
pub open spec fn unlink_done(
    d0: Seq<Seq<u8>>,
    d1: Seq<Seq<u8>>,
    sb: SuperBlock,
    pi: int,
    pd: DInodeView,
    k: int,
    e: int,
    rd: DInodeView,
) -> bool {
    let bs = sb.block_size as int;
    let freed = e != pi && rd.nlink == 1;
    let dd = if rd.ft == FType::TDir {
        lookup_index(d1, sb, rd, seq!['.', '.'])
    } else {
        None
    };
    let q = if freed && dd is Some {
        dir_entry(d1, bs, rd, dd.unwrap()).inum as int
    } else {
        -1
    };
    &&& entry_bytes(d1, bs, pd, k) == zeros(22)
    &&& forall|j: int| 0 <= j < entry_count(pd) && j != k ==> #[trigger] entry_bytes(d1, bs, pd, j) == entry_bytes(d0, bs, pd, j)
    &&& d1.len() == d0.len()
    &&& forall|b: int|
        sb.datastart <= b < d0.len() && !pointed(pd, (k * 22) / bs, (k * 22) / bs + write_range_count(22, (k * 22) % bs, bs), b)
            ==> #[trigger] d1[b] == d0[b]
    &&& forall|h: int|
        0 <= h < sb.ndatablocks && !(freed && blocks_to_free(rd.size, rd.blocks, sb).contains(h as u64))
            ==> #[trigger] bitmap_bit(d1, sb, h) == bitmap_bit(d0, sb, h)
    &&& forall|j: int|
        0 <= j && inode_in_range(sb, j) && j != q && (j != e || e == pi) ==> #[trigger] disk_inode(d1, sb, j) == disk_inode(d0, sb, j)
    &&& e != pi && rd.nlink != 1 ==> disk_inode(d1, sb, e) == Some(with_nlink(rd, one_link_less(rd.nlink) as int))
    &&& freed ==> disk_inode(d1, sb, e) == Some(DInodeView { ft: FType::TFree, nlink: 0, size: rd.size, blocks: no_blocks() })
    &&& freed ==> forall|x: int| 0 <= x < blocks_to_free(rd.size, rd.blocks, sb).len() ==> !#[trigger] bitmap_bit(d1, sb, blocks_to_free(rd.size, rd.blocks, sb)[x] as int)
    &&& freed && dd is Some ==> {
        &&& q != e
        &&& inode_in_range(sb, q)
        &&& disk_inode(d0, sb, q) matches Some(dq) && dq.nlink > 0 && disk_inode(d1, sb, q) == Some(with_nlink(dq, dq.nlink - 1))
    }
}

/// What `unlink` leaves keeps every directory readable: it changes only link
/// counts, and frees an inode by marking it free.
proof fn lemma_unlink_keeps_readable(
    d0: Seq<Seq<u8>>,
    d1: Seq<Seq<u8>>,
    sb: SuperBlock,
    pi: int,
    pd: DInodeView,
    k: int,
    e: int,
    rd: DInodeView,
)
    requires
        dirs_readable(d0, sb),
        unlink_done(d0, d1, sb, pi, pd, k, e, rd),
        0 <= e,
        inode_in_range(sb, e),
        disk_inode(d0, sb, e) == Some(rd),
    ensures
        dirs_readable(d1, sb),
{
    let bs = sb.block_size as int;
    let freed = e != pi && rd.nlink == 1;
    let dd = if rd.ft == FType::TDir {
        lookup_index(d1, sb, rd, seq!['.', '.'])
    } else {
        None
    };
    let q = if freed && dd is Some {
        dir_entry(d1, bs, rd, dd.unwrap()).inum as int
    } else {
        -1
    };
    assert forall|j: int|
        0 <= j && inode_in_range(sb, j) && (#[trigger] disk_inode(d1, sb, j) matches Some(d) && d.ft == FType::TDir)
        implies data_readable(disk_inode(d1, sb, j).unwrap(), sb) && ptrs_on_device(disk_inode(d1, sb, j).unwrap(), sb) by {
        let d = disk_inode(d1, sb, j).unwrap();
        if j == q {
            let dq = disk_inode(d0, sb, q).unwrap();
            assert(disk_inode(d0, sb, j) == Some(dq));
            assert(forall|x: int| #[trigger] ptr(d, x) == ptr(dq, x));
        } else if j == e && e != pi {
            assert(forall|x: int| #[trigger] ptr(d, x) == ptr(rd, x));
        } else {
            assert(disk_inode(d1, sb, j) == disk_inode(d0, sb, j));
        }
    }
}

/// Byte `p` of a file with blocks of `bs` bytes lies in one of its blocks
/// `first .. first + nr`.
pub open spec fn first_block_of(bs: int, p: int, first: int, nr: int) -> bool {
    first <= p / bs < first + nr
}

/// Clearing entry `k` of directory `pi` (disk inode `pd`) can write through
/// the pointers it meets (see [`write_meets_ok`]), and none of them is the
/// block holding inode `e` that `unlink` writes back afterwards.
pub open spec fn clear_apart(disk: Seq<Seq<u8>>, sb: SuperBlock, pi: int, pd: DInodeView, k: int, e: int) -> bool {
    let bs = sb.block_size as int;
    let first = (k * 22) / bs;
    let last = first + write_range_count(22, (k * 22) % bs, bs);
    &&& write_meets_ok(disk, sb, pd, pi, k * 22, 22)
    &&& e != pi ==> !pointed(pd, first, last, inode_block_of(sb, e))
}

/// Clearing entry `k` of directory `pd` writes through none of the blocks
/// holding the inode that the entry `..` of directory `rd` names, if it has
/// one: the inode `unlink` takes a link off when it frees `rd`.
pub open spec fn dotdot_apart(disk: Seq<Seq<u8>>, sb: SuperBlock, pd: DInodeView, k: int, rd: DInodeView) -> bool {
    let bs = sb.block_size as int;
    let first = (k * 22) / bs;
    let last = first + write_range_count(22, (k * 22) % bs, bs);
    match lookup_index(disk, sb, rd, seq!['.', '.']) {
        Some(y) => !pointed(pd, first, last, inode_block_of(sb, dir_entry(disk, bs, rd, y).inum as int)),
        None => true,
    }
}

/// Inode `e` (disk inode `rd`) can be freed once `unlink` has cleared entry
/// `k` of directory `pd` and taken the last link of `e`: it is not free, its
/// block pointers are sound and lie in the data region, and its data blocks
/// are present; when it is a
/// directory, none of its blocks is one that clearing the entry writes, and
/// its entry `..`, if it has one, names an inode other than `e` that reads
/// and has a link.
pub open spec fn can_free(disk: Seq<Seq<u8>>, sb: SuperBlock, pd: DInodeView, k: int, e: int, rd: DInodeView) -> bool {
    let bs = sb.block_size as int;
    let first = (k * 22) / bs;
    let last = first + write_range_count(22, (k * 22) % bs, bs);
    &&& rd.ft != FType::TFree
    &&& blocks_in_data(disk, sb, rd)
    &&& data_readable(rd, sb)
    &&& rd.ft == FType::TDir ==> {
        &&& forall|x: int| 0 <= x < 12 && ptr(rd, x) != 0 ==> !pointed(pd, first, last, #[trigger] ptr(rd, x) as int)
        &&& match lookup_index(disk, sb, rd, seq!['.', '.']) {
            Some(y) => {
                let q = dir_entry(disk, bs, rd, y).inum as int;
                &&& q != e
                &&& inode_in_range(sb, q)
                &&& disk_inode(disk, sb, q) matches Some(dq) && dq.nlink > 0
            },
            None => true,
        }
    }
}

/// Clearing entry `k` of directory `pd` leaves the entries of a directory
/// none of whose blocks the clearing writes as they were.
proof fn lemma_entries_kept(
    disk0: Seq<Seq<u8>>,
    pd: DInodeView,
    disk1: Seq<Seq<u8>>,
    pd1: DInodeView,
    sb: SuperBlock,
    pi: int,
    k: int,
    rd: DInodeView,
)
    requires
        sb_valid_spec(sb),
        sb.nblocks * (8 * sb.block_size) <= u64::MAX,
        inodes_per_block(sb) > 0,
        disk0.len() == sb.nblocks,
        0 <= pi,
        inode_in_range(sb, pi),
        0 <= k,
        write_done(disk0, pd, disk1, pd1, sb, pi, k * 22, 22, zeros(22)) || write_met_done(disk0, pd, disk1, pd1, sb, pi, k * 22, 22, zeros(22)),
        blocks_sound(disk0, sb, rd),
        data_readable(rd, sb),
        forall|x: int| 0 <= x < 12 && ptr(rd, x) != 0 ==> !pointed(
            pd,
            (k * 22) / (sb.block_size as int),
            (k * 22) / (sb.block_size as int) + write_range_count(22, (k * 22) % (sb.block_size as int), sb.block_size as int),
            #[trigger] ptr(rd, x) as int,
        ),
    ensures
        forall|j: int| 0 <= j < entry_count(rd) ==> #[trigger] entry_bytes(disk1, sb.block_size as int, rd, j) == entry_bytes(disk0, sb.block_size as int, rd, j),
{
    let bs = sb.block_size as int;
    let first = (k * 22) / bs;
    let last = first + write_range_count(22, (k * 22) % bs, bs);
    let ds = sb.datastart as int;
    crate::a_block_support::lemma_sb_bounds(sb);
    crate::b_inode_support::lemma_inode_location(sb, pi);
    assert forall|j: int| 0 <= j < entry_count(rd) implies #[trigger] entry_bytes(disk1, bs, rd, j) == entry_bytes(disk0, bs, rd, j) by {
        assert forall|x: int| 0 <= x < 22 implies #[trigger] entry_bytes(disk1, bs, rd, j)[x] == entry_bytes(disk0, bs, rd, j)[x] by {
            let p = j * 22 + x;
            vstd::arithmetic::div_mod::lemma_fundamental_div_mod(rd.size as int, 22);
            crate::b_inode_support::lemma_div_lt_ceil(p, rd.size as int, bs);
            vstd::arithmetic::div_mod::lemma_div_pos_is_pos(p, bs);
            let y = p / bs;
            let b = ptr(rd, y) as int;
            assert(b != 0);
            assert(0 <= y < 12);
            assert(held(disk0, sb, b));
            assert(!pointed(pd, first, last, b));
            assert(!pointed(pd1, first, last, b)) by {
                if pointed(pd1, first, last, b) {
                    let w = choose|w: int| first <= w < last && #[trigger] ptr(pd1, w) == b;
                    if ptr(pd, w) != 0 {
                        assert(ptr(pd1, w) == ptr(pd, w));
                        assert(pointed(pd, first, last, b));
                    } else {
                        assert(ds <= ptr(pd1, w) < ds + sb.ndatablocks && !bitmap_bit(disk0, sb, ptr(pd1, w) - ds));
                    }
                }
            }
            assert(disk1[b] == disk0[b]);
        }
        assert(entry_bytes(disk1, bs, rd, j) =~= entry_bytes(disk0, bs, rd, j));
    }
}

/// Blocks of the data region hold the same bytes of a file whose block
/// pointers lie in the data region.
proof fn lemma_data_bytes(a: Seq<Seq<u8>>, b: Seq<Seq<u8>>, sb: SuperBlock, dsk: Seq<Seq<u8>>, d: DInodeView)
    requires
        sb_valid_spec(sb),
        a.len() == sb.nblocks,
        data_same(a, b, sb),
        blocks_sound(dsk, sb, d),
    ensures
        forall|p: int| ptr(d, p / (sb.block_size as int)) != 0 ==> #[trigger] file_byte(b, sb.block_size as int, d, p) == file_byte(a, sb.block_size as int, d, p),
{
    let bs = sb.block_size as int;
    assert forall|p: int| ptr(d, p / bs) != 0 implies #[trigger] file_byte(b, bs, d, p) == file_byte(a, bs, d, p) by {
        let j = p / bs;
        if !(0 <= j < 12) {
            assert(ptr(d, j) == 0);
        }
    }
}

/// The entries of a readable directory whose blocks lie in the data region
/// read the same on disks whose data regions agree.
proof fn lemma_entry_bytes_frame(a: Seq<Seq<u8>>, b: Seq<Seq<u8>>, sb: SuperBlock, dsk: Seq<Seq<u8>>, d: DInodeView)
    requires
        sb_valid_spec(sb),
        a.len() == sb.nblocks,
        data_same(a, b, sb),
        blocks_sound(dsk, sb, d),
        data_readable(d, sb),
    ensures
        forall|k: int| 0 <= k < entry_count(d) ==> #[trigger] entry_bytes(b, sb.block_size as int, d, k) == entry_bytes(a, sb.block_size as int, d, k),
{
    let bs = sb.block_size as int;
    lemma_data_bytes(a, b, sb, dsk, d);
    assert forall|k: int| 0 <= k < entry_count(d) implies #[trigger] entry_bytes(b, bs, d, k) == entry_bytes(a, bs, d, k) by {
        assert forall|x: int| 0 <= x < 22 implies #[trigger] entry_bytes(b, bs, d, k)[x] == entry_bytes(a, bs, d, k)[x] by {
            let p = k * 22 + x;
            vstd::arithmetic::div_mod::lemma_fundamental_div_mod(d.size as int, 22);
            crate::b_inode_support::lemma_div_lt_ceil(p, d.size as int, bs);
            vstd::arithmetic::div_mod::lemma_div_pos_is_pos(p, bs);
            assert(ptr(d, p / bs) != 0);
        }
        assert(entry_bytes(b, bs, d, k) =~= entry_bytes(a, bs, d, k));
    }
}

/// After the write of 22 zero bytes over entry `k` of a readable directory,
/// the bytes of that entry are zero and every other entry reads as before,
/// through the directory's inode as it was.
proof fn lemma_entry_cleared(
    d0_disk: Seq<Seq<u8>>,
    d0: DInodeView,
    d1_disk: Seq<Seq<u8>>,
    d1: DInodeView,
    sb: SuperBlock,
    inum: int,
    k: int,
)
    requires
        sb.block_size > 0,
        data_readable(d0, sb),
        0 <= k < entry_count(d0),
        write_done(d0_disk, d0, d1_disk, d1, sb, inum, k * 22, 22, zeros(22)),
    ensures
        entry_bytes(d1_disk, sb.block_size as int, d0, k) == zeros(22),
        forall|j: int| 0 <= j < entry_count(d0) && j != k ==> #[trigger] entry_bytes(d1_disk, sb.block_size as int, d0, j) == entry_bytes(d0_disk, sb.block_size as int, d0, j),
{
    let bs = sb.block_size as int;
    vstd::arithmetic::div_mod::lemma_fundamental_div_mod(d0.size as int, 22);
    assert forall|x: int| 0 <= x < 22 implies #[trigger] entry_bytes(d1_disk, bs, d0, k)[x] == zeros(22)[x] by {
        let p = k * 22 + x;
        crate::b_inode_support::lemma_div_lt_ceil(p, d0.size as int, bs);
        vstd::arithmetic::div_mod::lemma_div_pos_is_pos(p, bs);
        assert(ptr(d0, p / bs) != 0);
        assert(file_byte(d1_disk, bs, d1, k * 22 + x) == zeros(22)[x]);
    }
    assert(entry_bytes(d1_disk, bs, d0, k) =~= zeros(22));
    assert forall|j: int| 0 <= j < entry_count(d0) && j != k implies #[trigger] entry_bytes(d1_disk, bs, d0, j) == entry_bytes(d0_disk, bs, d0, j) by {
        assert forall|x: int| 0 <= x < 22 implies #[trigger] entry_bytes(d1_disk, bs, d0, j)[x] == entry_bytes(d0_disk, bs, d0, j)[x] by {
            let p = j * 22 + x;
            crate::b_inode_support::lemma_div_lt_ceil(p, d0.size as int, bs);
            vstd::arithmetic::div_mod::lemma_div_pos_is_pos(p, bs);
            assert(ptr(d0, p / bs) != 0);
            assert(!(k * 22 <= p < k * 22 + 22)) by (nonlinear_arith)
                requires
                    j != k,
                    0 <= x < 22,
                    p == j * 22 + x,
            ;
            assert(0 <= p) by (nonlinear_arith)
                requires
                    0 <= j,
                    0 <= x,
                    p == j * 22 + x,
            ;
            assert(ptr(d1, p / bs) == ptr(d0, p / bs));
            assert(file_byte(d1_disk, bs, d1, p) == file_byte(d0_disk, bs, d0, p));
        }
        assert(entry_bytes(d1_disk, bs, d0, j) =~= entry_bytes(d0_disk, bs, d0, j));
    }
}

/// Writing an inode changes no block of the data region, and changes no
/// other inode.
proof fn lemma_put_keeps(old: Seq<Seq<u8>>, new: Seq<Seq<u8>>, sb: SuperBlock, i: int, t: DInodeView)
    requires
        sb_valid_spec(sb),
        sb.nblocks * (8 * sb.block_size) <= u64::MAX,
        crate::write_model::disk_shape(old, sb),
        0 <= i,
        inode_in_range(sb, i),
        inodes_per_block(sb) > 0,
        inode_written(old, new, sb, i, t),
    ensures
        data_same(old, new, sb),
        crate::write_model::disk_shape(new, sb),
        forall|j: int|
            0 <= j && inode_in_range(sb, j) ==> #[trigger] disk_inode(new, sb, j) == if j == i {
                Some(t)
            } else {
                disk_inode(old, sb, j)
            },
{
    crate::b_inode_support::lemma_inode_location(sb, i);
    assert forall|j: int| 0 <= j && inode_in_range(sb, j) implies #[trigger] disk_inode(new, sb, j) == if j == i {
        Some(t)
    } else {
        disk_inode(old, sb, j)
    } by {
        crate::b_inode_support::lemma_inode_write_read(old, new, sb, i, t, j);
    }
}

/// Freeing data blocks changes no block of the data region, and no inode.
proof fn lemma_free_keeps(disk: Seq<Seq<u8>>, sb: SuperBlock, s: Seq<u64>)
    requires
        sb_valid_spec(sb),
        sb.nblocks * (8 * sb.block_size) <= u64::MAX,
        crate::write_model::disk_shape(disk, sb),
        inodes_per_block(sb) > 0,
    ensures
        data_same(disk, free_all(disk, sb, s), sb),
        crate::write_model::disk_shape(free_all(disk, sb, s), sb),
        forall|j: int| 0 <= j && inode_in_range(sb, j) ==> #[trigger] disk_inode(free_all(disk, sb, s), sb, j) == disk_inode(disk, sb, j),
{
    crate::b_inode_support::lemma_free_all_frame(disk, sb, s);
    assert forall|j: int| 0 <= j && inode_in_range(sb, j) implies #[trigger] disk_inode(free_all(disk, sb, s), sb, j) == disk_inode(disk, sb, j) by {
        crate::b_inode_support::lemma_inode_location(sb, j);
    }
}

/// Looking a name up from entry `k` on in two directories whose entries from
/// `k` on read the same gives the same.
proof fn lemma_find_name_congruent(
    a: Seq<Seq<u8>>,
    b: Seq<Seq<u8>>,
    bs: int,
    da: DInodeView,
    db: DInodeView,
    name: Seq<char>,
    k: int,
)
    requires
        entry_count(da) == entry_count(db),
        forall|j: int| 0 <= j < entry_count(da) && k <= j ==> #[trigger] entry_bytes(b, bs, db, j) == entry_bytes(a, bs, da, j),
    ensures
        find_name(b, bs, db, name, k) == find_name(a, bs, da, name, k),
    decreases entry_count(da) - k,
{
    if 0 <= k < entry_count(da) {
        assert(entry_bytes(b, bs, db, k) == entry_bytes(a, bs, da, k));
        lemma_find_name_congruent(a, b, bs, da, db, name, k + 1);
    }
}

/// Freeing stops at most at the end of the list.
proof fn lemma_free_count_bound(disk: Seq<Seq<u8>>, sb: SuperBlock, s: Seq<u64>)
    ensures
        free_count(disk, sb, s) <= s.len(),
    decreases s.len(),
{
    if s.len() > 0 && s[0] < sb.ndatablocks && bitmap_bit(disk, sb, s[0] as int) {
        lemma_free_count_bound(disk_with_bit(disk, sb, s[0] as int, false), sb, s.drop_first());
    }
}

/// Removing an entry hides its name: once `unlink` has removed entry `k` of
/// a directory, the first entry with that name, looking the name up in the
/// directory now finds what the lookup before would have found past entry
/// `k`: nothing when no other entry had the name.
pub proof fn lemma_unlink_then_lookup(
    d0: Seq<Seq<u8>>,
    d1: Seq<Seq<u8>>,
    sb: SuperBlock,
    pi: int,
    pd: DInodeView,
    k: int,
    e: int,
    rd: DInodeView,
    name: Seq<char>,
)
    requires
        name.len() > 0,
        lookup_index(d0, sb, pd, name) == Some(k),
        unlink_done(d0, d1, sb, pi, pd, k, e, rd),
    ensures
        lookup_index(d1, sb, pd, name) == find_name(d0, sb.block_size as int, pd, name, k + 1),
{
    let bs = sb.block_size as int;
    crate::c_dirs_support::lemma_find_name_bound(d0, bs, pd, name, 0);
    lemma_find_name_congruent(d0, d1, bs, pd, pd, name, k + 1);
    let zb = zeros(22).subrange(8, 22);
    assert(zb[0] == 0);
    assert(name_text(dir_entry(d1, bs, pd, k).name) =~= Seq::<char>::empty());
    assert(find_name(d1, bs, pd, name, k) == find_name(d1, bs, pd, name, k + 1));
    lemma_find_name_prefix(d0, d1, bs, pd, name, k, 0);
}

/// Entries before `k` that read the same and do not have the name leave a
/// lookup from `j` to go on at `k` on both disks.
proof fn lemma_find_name_prefix(
    d0: Seq<Seq<u8>>,
    d1: Seq<Seq<u8>>,
    bs: int,
    pd: DInodeView,
    name: Seq<char>,
    k: int,
    j: int,
)
    requires
        0 <= j <= k < entry_count(pd),
        find_name(d0, bs, pd, name, j) == Some(k),
        forall|i: int| 0 <= i < entry_count(pd) && i != k ==> #[trigger] entry_bytes(d1, bs, pd, i) == entry_bytes(d0, bs, pd, i),
    ensures
        find_name(d1, bs, pd, name, j) == find_name(d1, bs, pd, name, k),
    decreases k - j,
{
    if j < k {
        assert(entry_bytes(d1, bs, pd, j) == entry_bytes(d0, bs, pd, j));
        lemma_find_name_prefix(d0, d1, bs, pd, name, k, j + 1);
    }
}

/// Looking for a free entry from entry `k` on in two directories whose
/// entries from `k` on read the same gives the same.
proof fn lemma_find_free_congruent(a: Seq<Seq<u8>>, b: Seq<Seq<u8>>, bs: int, da: DInodeView, db: DInodeView, k: int)
    requires
        entry_count(da) == entry_count(db),
        forall|j: int| 0 <= j < entry_count(da) && k <= j ==> #[trigger] entry_bytes(b, bs, db, j) == entry_bytes(a, bs, da, j),
    ensures
        find_free(b, bs, db, k) == find_free(a, bs, da, k),
    decreases entry_count(da) - k,
{
    if 0 <= k < entry_count(da) {
        assert(entry_bytes(b, bs, db, k) == entry_bytes(a, bs, da, k));
        lemma_find_free_congruent(a, b, bs, da, db, k + 1);
    }
}

/// When `mkdir` of the path `s` succeeds on `d0`: the path is valid, its
/// last name is neither `.` nor `..` and is a valid name, the path to the
/// parent is valid and resolves to a directory without an entry of that
/// name, an inode among `1 .. ninodes` is free, the entry fits in the
/// parent's pointer array, and the free data blocks cover the blocks the
/// entry needs in the parent and one block for the new directory.
pub open spec fn mkdir_ready(d0: Seq<Seq<u8>>, sb: SuperBlock, cwd: Seq<Seq<char>>, s: Seq<char>) -> bool {
    let bs = sb.block_size as int;
    let (pre, name) = parent_and_entry(s);
    &&& entry_path(s)
    &&& path_ok(pre)
    &&& match resolve(d0, sb, cwd, pre) {
        Some((pi, pd)) => {
            let off = link_offset(d0, bs, pd);
            let first = off / bs;
            let nr = write_range_count(22, off % bs, bs);
            &&& pd.ft == FType::TDir
            &&& valid_dirname(name)
            &&& lookup_index(d0, sb, pd, name) is None
            &&& exists|j: int| 1 <= j < sb.ninodes && #[trigger] free_inode(d0, sb, j)
            &&& off + 22 <= 12 * bs
            &&& first + nr <= 12
            &&& missing_ptrs(pd, first, first + nr) + 1 <= free_below(d0, sb, sb.ndatablocks as int)
        },
        None => false,
    }
}

/// What a successful `mkdir` of the path `s`, which made directory `n`,
/// leaves of the parent directory in `d1`, whatever its other block pointers:
/// the path to the parent resolves on `d0` to an inode other than `n`, which
/// now has one link more, the size the new entry needs, and an entry for `n`
/// under the last name of the path where linking puts it (see
/// [`link_offset`]), which looking the name up finds; its other entries are
/// as they were.
pub open spec fn mkdir_parent_linked(d0: Seq<Seq<u8>>, d1: Seq<Seq<u8>>, sb: SuperBlock, cwd: Seq<Seq<char>>, s: Seq<char>, n: int) -> bool {
    let bs = sb.block_size as int;
    let (pre, name) = parent_and_entry(s);
    match resolve(d0, sb, cwd, pre) {
        Some((pi, pd)) => {
            let off = link_offset(d0, bs, pd);
            &&& pi != n
            &&& match disk_inode(d1, sb, pi) {
                Some(pdf) => {
                    &&& pdf.ft == pd.ft
                    &&& pdf.nlink == pd.nlink + 1
                    &&& pdf.size == (if pd.size < off + 22 { off + 22 } else { pd.size as int })
                    &&& entry_at(d1, bs, pdf, off) == new_entry(n as u64, name)
                    &&& forall|k: int| 0 <= k < entry_count(pd) && (k * 22 + 22 <= off || off + 22 <= k * 22) ==> #[trigger] dir_entry(d1, bs, pdf, k) == dir_entry(d0, bs, pd, k)
                    &&& pd.size % 22 == 0 ==> lookup_index(d1, sb, pdf, name) == Some(off / 22)
                },
                None => false,
            }
        },
        None => false,
    }
}

/// What a successful `mkdir` of the path `s`, which made directory `n`,
/// leaves of the parent directory and the other inodes of `d0` in `d1`: the
/// path to the parent resolves on `d0` to a directory other than `n`; the
/// parent holds an entry for `n` under the last name of the path where
/// [`link_offset`] puts it (growing to cover it), its other entries are as
/// they were, and it has one link more (from the entry `..` of `n`); when its
/// size was a multiple of the entry size, looking the name up in it finds
/// the new entry. No inode but the parent and `n` changes.
pub open spec fn mkdir_parent_done(d0: Seq<Seq<u8>>, d1: Seq<Seq<u8>>, sb: SuperBlock, cwd: Seq<Seq<char>>, s: Seq<char>, n: int) -> bool {
    let bs = sb.block_size as int;
    let (pre, name) = parent_and_entry(s);
    match resolve(d0, sb, cwd, pre) {
        Some((pi, pd)) => {
            let off = link_offset(d0, bs, pd);
            &&& pd.ft == FType::TDir
            &&& pi != n
            &&& match disk_inode(d1, sb, pi) {
                Some(pdf) => {
                    &&& pdf.ft == pd.ft
                    &&& pdf.nlink == pd.nlink + 1
                    &&& pdf.size == (if pd.size < off + 22 { off + 22 } else { pd.size as int })
                    &&& entry_at(d1, bs, pdf, off) == new_entry(n as u64, name)
                    &&& forall|k: int| 0 <= k < entry_count(pd) && (k * 22 + 22 <= off || off + 22 <= k * 22) ==> #[trigger] dir_entry(d1, bs, pdf, k) == dir_entry(d0, bs, pd, k)
                    &&& pd.size % 22 == 0 ==> lookup_index(d1, sb, pdf, name) == Some(off / 22)
                },
                None => false,
            }
            &&& forall|j: int| 0 <= j && inode_in_range(sb, j) && j != pi && j != n ==> #[trigger] disk_inode(d1, sb, j) == disk_inode(d0, sb, j)
        },
        None => false,
    }
}

/// The parent directory and the other inodes after the steps of `mkdir`:
/// allocating inode `n` (`disk0` to `disk1`), linking it into the parent
/// (`disk2`), and linking `.` and `..` into it (`disk3`, `disk4`).
#[verifier::rlimit(80)]
proof fn lemma_mkdir_parent(
    disk0: Seq<Seq<u8>>,
    disk1: Seq<Seq<u8>>,
    disk2: Seq<Seq<u8>>,
    disk3: Seq<Seq<u8>>,
    disk4: Seq<Seq<u8>>,
    sb: SuperBlock,
    cwd: Seq<Seq<char>>,
    s: Seq<char>,
    pi: int,
    pd: DInodeView,
    pd1: DInodeView,
    n: int,
    nd0: DInodeView,
    nd1: DInodeView,
    fresh: DInodeView,
)
    requires
        sb_valid_spec(sb),
        sb.nblocks * (8 * sb.block_size) <= u64::MAX,
        inodes_per_block(sb) > 0,
        crate::write_model::disk_shape(disk0, sb),
        resolve(disk0, sb, cwd, parent_and_entry(s).0) == Some((pi, pd)),
        pd.ft == FType::TDir,
        dir_ok(disk0, sb, pd),
        0 <= pi,
        inode_in_range(sb, pi),
        disk_inode(disk0, sb, pi) == Some(pd),
        pd.nlink < u16::MAX,
        0 <= n,
        inode_in_range(sb, n),
        n != pi,
        n <= u64::MAX,
        inode_written(disk0, disk1, sb, n, fresh),
        valid_dirname(parent_and_entry(s).1),
        ({
            let bs = sb.block_size as int;
            let off1 = link_offset(disk1, bs, pd);
            let name = parent_and_entry(s).1;
            &&& lookup_index(disk1, sb, pd, name) is None
            &&& pd1.size == (if pd.size < off1 + 22 { off1 + 22 } else { pd.size as int })
            &&& pd1.ft == pd.ft && pd1.nlink == pd.nlink
            &&& entry_at(disk2, bs, pd1, off1) == new_entry(n as u64, name)
            &&& forall|k: int| 0 <= k < entry_count(pd) && (k * 22 + 22 <= off1 || off1 + 22 <= k * 22) ==> #[trigger] dir_entry(disk2, bs, pd1, k) == dir_entry(disk1, bs, pd, k)
            &&& blocks_sound(disk2, sb, pd1)
            &&& data_readable(pd1, sb)
            &&& disk_inode(disk2, sb, pi) == (if pd.size < off1 + 22 { Some(pd1) } else { Some(pd) })
            &&& forall|j: int| 0 <= j && inode_in_range(sb, j) && j != pi && j != n ==> #[trigger] disk_inode(disk2, sb, j) == disk_inode(disk1, sb, j)
            &&& forall|j: int| ptr(pd, j) != 0 ==> #[trigger] ptr(pd1, j) == ptr(pd, j)
        }),
        nd0.blocks == no_blocks(),
        forall|j: int| 0 <= j && inode_in_range(sb, j) && j != n ==> #[trigger] disk_inode(disk3, sb, j) == disk_inode(disk2, sb, j),
        forall|b: int| held(disk2, sb, b) && !pointed(nd0, 0, 12, b)
            ==> #[trigger] disk3[b] == disk2[b],
        forall|h: int| 0 <= h < sb.ndatablocks && bitmap_bit(disk2, sb, h) ==> #[trigger] bitmap_bit(disk3, sb, h),
        forall|j: int| 0 <= j < 12 && ptr(nd0, j) == 0 && ptr(nd1, j) != 0 ==> sb.datastart <= #[trigger] ptr(nd1, j) < sb.datastart + sb.ndatablocks && !bitmap_bit(disk2, sb, ptr(nd1, j) - sb.datastart),
        disk_inode(disk3, sb, pi) is Some,
        disk_inode(disk4, sb, pi) == Some(with_nlink(disk_inode(disk3, sb, pi).unwrap(), disk_inode(disk3, sb, pi).unwrap().nlink + 1)),
        forall|j: int| 0 <= j && inode_in_range(sb, j) && j != n && j != pi ==> #[trigger] disk_inode(disk4, sb, j) == disk_inode(disk3, sb, j),
        forall|b: int| held(disk3, sb, b) && !pointed(nd1, 0, 12, b)
            ==> #[trigger] disk4[b] == disk3[b],
    ensures
        mkdir_parent_done(disk0, disk4, sb, cwd, s, n),
{
    let bs = sb.block_size as int;
    let ds = sb.datastart as int;
    let name = parent_and_entry(s).1;
    crate::a_block_support::lemma_sb_bounds(sb);
    lemma_put_keeps(disk0, disk1, sb, n, fresh);
    lemma_entry_bytes_frame(disk0, disk1, sb, disk0, pd);
    lemma_find_free_congruent(disk0, disk1, bs, pd, pd, 0);
    let off = link_offset(disk0, bs, pd);
    assert(link_offset(disk1, bs, pd) == off);
    let grew = pd.size < off + 22;
    // the parent's blocks are not touched by the writes into the new directory
    assert forall|j: int| 0 <= j < 12 && ptr(pd1, j) != 0 implies #[trigger] disk4[ptr(pd1, j) as int] == disk2[ptr(pd1, j) as int] by {
        let b = ptr(pd1, j) as int;
        assert(held(disk2, sb, b));
        if pointed(nd0, 0, 12, b) {
            let j2 = choose|j2: int| 0 <= j2 < 12 && #[trigger] ptr(nd0, j2) == b;
            assert(ptr(nd0, j2) == 0);
        }
        assert(disk3[b] == disk2[b]);
        assert(held(disk3, sb, b));
        if pointed(nd1, 0, 12, b) {
            let j2 = choose|j2: int| 0 <= j2 < 12 && #[trigger] ptr(nd1, j2) == b;
            assert(ptr(nd0, j2) == 0);
            assert(ds <= ptr(nd1, j2) < ds + sb.ndatablocks && !bitmap_bit(disk2, sb, ptr(nd1, j2) - ds));
        }
    }
    let pp = if grew { pd1 } else { pd };
    assert(disk_inode(disk3, sb, pi) == Some(pp));
    let pdf = with_nlink(pp, pd.nlink + 1);
    assert(disk_inode(disk4, sb, pi) == Some(pdf));
    assert(pdf.size == pd1.size);
    assert(data_readable(pp, sb));
    // the parent's bytes read on the last disk as after its own link
    assert forall|p: int| 0 <= p < pdf.size implies #[trigger] file_byte(disk4, bs, pdf, p) == file_byte(disk2, bs, pd1, p) by {
        crate::b_inode_support::lemma_div_lt_ceil(p, pdf.size as int, bs);
        vstd::arithmetic::div_mod::lemma_div_pos_is_pos(p, bs);
        let j = p / bs;
        assert(ptr(pp, j) != 0);
        if !(0 <= j < 12) {
            assert(ptr(pp, j) == 0);
        }
        assert(ptr(pdf, j) == ptr(pp, j));
        assert(ptr(pd1, j) == ptr(pp, j));
    }
    // the new entry
    let eb4 = Seq::new(22, |x: int| file_byte(disk4, bs, pdf, off + x));
    let eb2 = Seq::new(22, |x: int| file_byte(disk2, bs, pd1, off + x));
    assert(off >= 0) by {
        if find_free(disk0, bs, pd, 0) is Some {
            crate::c_dirs_support::lemma_find_free_bound(disk0, bs, pd, 0);
        }
    }
    assert(eb4 =~= eb2);
    assert(entry_at(disk4, bs, pdf, off) == new_entry(n as u64, name));
    // the entries that were there
    vstd::arithmetic::div_mod::lemma_fundamental_div_mod(pd.size as int, 22);
    vstd::arithmetic::div_mod::lemma_fundamental_div_mod(pdf.size as int, 22);
    assert forall|k: int| 0 <= k < entry_count(pdf) implies #[trigger] entry_bytes(disk4, bs, pdf, k) == entry_bytes(disk2, bs, pd1, k) by {
        assert forall|x: int| 0 <= x < 22 implies #[trigger] entry_bytes(disk4, bs, pdf, k)[x] == entry_bytes(disk2, bs, pd1, k)[x] by {
            assert(0 <= k * 22 + x < pdf.size) by (nonlinear_arith)
                requires
                    0 <= k < entry_count(pdf),
                    entry_count(pdf) == pdf.size as int / 22,
                    pdf.size as int == 22 * (pdf.size as int / 22) + pdf.size as int % 22,
                    0 <= x < 22,
            ;
        }
        assert(entry_bytes(disk4, bs, pdf, k) =~= entry_bytes(disk2, bs, pd1, k));
    }
    assert(entry_count(pd) <= entry_count(pdf)) by {
        vstd::arithmetic::div_mod::lemma_div_is_ordered(pd.size as int, pdf.size as int, 22);
    }
    assert forall|k: int| 0 <= k < entry_count(pd) && (k * 22 + 22 <= off || off + 22 <= k * 22) implies #[trigger] dir_entry(disk4, bs, pdf, k) == dir_entry(disk0, bs, pd, k) by {
        assert(entry_bytes(disk4, bs, pdf, k) == entry_bytes(disk2, bs, pd1, k));
        assert(entry_bytes(disk1, bs, pd, k) == entry_bytes(disk0, bs, pd, k));
        assert(dir_entry(disk2, bs, pd1, k) == dir_entry(disk1, bs, pd, k));
        assert(dir_entry(disk4, bs, pdf, k) == dir_entry(disk2, bs, pd1, k));
    }
    if pd.size % 22 == 0 {
        assert(pd.size >= off + 22 ==> pd1.size >= off + 22);
        crate::c_dirs_support::lemma_link_then_lookup(disk1, pd, disk2, pd1, sb, n as u64, name);
        lemma_find_name_congruent(disk2, disk4, bs, pd1, pdf, name, 0);
    }
    assert forall|j: int| 0 <= j && inode_in_range(sb, j) && j != pi && j != n implies #[trigger] disk_inode(disk4, sb, j) == disk_inode(disk0, sb, j) by {
        assert(disk_inode(disk1, sb, j) == disk_inode(disk0, sb, j));
    }
}

/// Directory `pd` can be read and take one more entry; the block pointers
/// that linking an entry into it writes through lie past the metadata, are
/// distinct, and are marked allocated when in the data region; and the other
/// blocks holding its entries lie past the metadata, are allocated and are
/// none of those: what `mkdir` needs of a parent whose other block pointers
/// (those past its size) are not sound.
pub open spec fn link_writable(disk: Seq<Seq<u8>>, sb: SuperBlock, pd: DInodeView) -> bool {
    let bs = sb.block_size as int;
    let off = link_offset(disk, bs, pd);
    let first = off / bs;
    let last = first + write_range_count(22, off % bs, bs);
    &&& data_readable(pd, sb)
    &&& pd.size + 22 <= usize::MAX
    &&& met_sound(disk, sb, pd, first, last)
    &&& forall|j: int|
        0 <= j < 12 && #[trigger] ptr(pd, j) != 0 && (j < ceil_div(pd.size as int, bs) || first <= j < last)
            ==> sb.datastart <= ptr(pd, j)
    &&& forall|j: int|
        0 <= j < ceil_div(pd.size as int, bs) && !(first <= j < last) ==> held(disk, sb, #[trigger] ptr(pd, j) as int)
            && !pointed(pd, first, last, ptr(pd, j) as int)
}

/// The path to the parent of the entry `s` names resolves to a directory
/// whose block pointers are sound (see [`dir_ok`]).
pub open spec fn mkdir_parent_sound(disk: Seq<Seq<u8>>, sb: SuperBlock, cwd: Seq<Seq<char>>, s: Seq<char>) -> bool {
    resolve(disk, sb, cwd, parent_and_entry(s).0) matches Some((_, pd)) && dir_ok(disk, sb, pd)
}

/// The entries of a readable directory whose entries' blocks lie in the
/// data region read the same on disks whose data regions agree.
proof fn lemma_entry_bytes_frame_used(a: Seq<Seq<u8>>, b: Seq<Seq<u8>>, sb: SuperBlock, d: DInodeView)
    requires
        sb_valid_spec(sb),
        a.len() == sb.nblocks,
        data_same(a, b, sb),
        data_readable(d, sb),
        forall|j: int|
            0 <= j < 12 && #[trigger] ptr(d, j) != 0 && j < ceil_div(d.size as int, sb.block_size as int)
                ==> sb.datastart <= ptr(d, j),
    ensures
        forall|k: int| 0 <= k < entry_count(d) ==> #[trigger] entry_bytes(b, sb.block_size as int, d, k) == entry_bytes(a, sb.block_size as int, d, k),
{
    let bs = sb.block_size as int;
    assert forall|k: int| 0 <= k < entry_count(d) implies #[trigger] entry_bytes(b, bs, d, k) == entry_bytes(a, bs, d, k) by {
        assert forall|x: int| 0 <= x < 22 implies #[trigger] entry_bytes(b, bs, d, k)[x] == entry_bytes(a, bs, d, k)[x] by {
            let p = k * 22 + x;
            vstd::arithmetic::div_mod::lemma_fundamental_div_mod(d.size as int, 22);
            crate::b_inode_support::lemma_div_lt_ceil(p, d.size as int, bs);
            vstd::arithmetic::div_mod::lemma_div_pos_is_pos(p, bs);
            assert(ptr(d, p / bs) != 0);
            if p / bs >= 12 {
                assert(ptr(d, p / bs) == 0);
            }
            assert(sb.datastart <= ptr(d, p / bs));
        }
        assert(entry_bytes(b, bs, d, k) =~= entry_bytes(a, bs, d, k));
    }
}

impl EsFS4 {
    /// Creates the directory `path` names: resolves the path to its parent,
    /// allocates a directory inode, links it into the parent under the last
    /// name of the path, and gives it the entries `.` (itself) and `..` (the
    /// parent). Fails with `Path` when `path` is not valid, is `/` alone, or
    /// its last name is `.` or `..`; otherwise as resolving, allocating or linking fails (see
    /// [`mkdir_ready`]). The parent it writes into must have sound block
    /// pointers (see [`dir_ok`]), or at least those that hold its entries and
    /// those the new entry is written through must lie in the data region,
    /// and the latter be distinct and allocated (see [`link_writable`]): then
    /// the parent holds the new entry where looking its name up finds it,
    /// keeps its other entries and has one link more, and the new directory
    /// is stated whole (see [`mkdir_parent_linked`]); that no other inode
    /// changed is stated for a sound parent (see [`mkdir_parent_done`]).
    #[verifier::rlimit(40)]
    pub fn mkdir(&mut self, path: &str) -> (r: Result<Inode, PathError>)
        requires
            old(self).inv(),
            entry_path(path@) ==> resolve_readable(old(self).disk(), old(self).sb(), old(self).cwd(), parent_and_entry(path@).0),
            entry_path(path@) ==> (resolve(old(self).disk(), old(self).sb(), old(self).cwd(), parent_and_entry(path@).0) matches Some((_, pd))
                ==> alloc_walkable(old(self).disk(), old(self).sb()) && pd.nlink < u16::MAX
                && (pd.ft == FType::TDir ==> dir_ok(old(self).disk(), old(self).sb(), pd) || link_writable(old(self).disk(), old(self).sb(), pd))),
        ensures
            final(self).inv(),
            final(self).sb() == old(self).sb(),
            final(self).cwd() == old(self).cwd(),
            !entry_path(path@) ==> (r matches Err(PathError::Path(_))) && final(self).disk() == old(self).disk(),
            r is Ok <==> mkdir_ready(old(self).disk(), old(self).sb(), old(self).cwd(), path@),
            r is Ok && mkdir_parent_sound(old(self).disk(), old(self).sb(), old(self).cwd(), path@) && dirs_readable(old(self).disk(), old(self).sb())
                ==> dirs_readable(final(self).disk(), old(self).sb()),
            path_ok(path@) && (!path_ok(parent_and_entry(path@).0) || resolve(old(self).disk(), old(self).sb(), old(self).cwd(), parent_and_entry(path@).0) is None)
                ==> r is Err && final(self).disk() == old(self).disk(),
            entry_path(path@) && path_ok(parent_and_entry(path@).0)
                && resolve(old(self).disk(), old(self).sb(), old(self).cwd(), parent_and_entry(path@).0) is Some
                && !(exists|j: int| 1 <= j < old(self).sb().ninodes && #[trigger] free_inode(old(self).disk(), old(self).sb(), j))
                ==> (r matches Err(PathError::Backend(DirectoryError::Backend(InodeRWError::Inode(InodeError::Alloc(_)))))) && final(self).disk() == old(self).disk(),
            r matches Ok(ino) ==> {
                let sb = old(self).sb();
                let bs = sb.block_size as int;
                let disk1 = final(self).disk();
                &&& ino.disk_node.ft == FType::TDir
                &&& free_inode(old(self).disk(), sb, ino.inum as int)
                &&& disk_inode(disk1, sb, ino.inum as int) == Some(ino.disk_node@)
                &&& ino.disk_node.size == 44
                &&& dir_entry(disk1, bs, ino.disk_node@, 0) == new_entry(ino.inum, seq!['.'])
                &&& resolve(old(self).disk(), sb, old(self).cwd(), parent_and_entry(path@).0) matches Some((p, _))
                    && dir_entry(disk1, bs, ino.disk_node@, 1) == new_entry(p as u64, seq!['.', '.'])
                &&& ino.disk_node.nlink == disk_inode(old(self).disk(), sb, ino.inum as int).unwrap().nlink + 1
                &&& mkdir_parent_linked(old(self).disk(), disk1, sb, old(self).cwd(), path@, ino.inum as int)
                &&& mkdir_parent_sound(old(self).disk(), sb, old(self).cwd(), path@) ==> mkdir_parent_done(old(self).disk(), disk1, sb, old(self).cwd(), path@, ino.inum as int)
            },
    {
        let ghost sb = self.sb();
        let ghost bs = sb.block_size as int;
        let ghost disk0 = self.disk();
        let (prefix, new_dirname) = match split_parent_entry(path) {
            Some(pair) => pair,
            None => return Err(PathError::Path("invalid format.")),
        };
        if is_dotdot(new_dirname) {
            return Err(PathError::Path(".. is an invalid directory name."));
        }
        if is_dot(new_dirname) {
            return Err(PathError::Path(". is an invalid directory name."));
        }
        let mut parent_inode = match self.resolve_path(prefix) {
            Ok(ino) => ino,
            Err(e) => return Err(e),
        };
        let ghost pd = parent_inode.disk_node@;
        let ghost pi = parent_inode.inum as int;
        proof {
            assert(inode_in_range(sb, 1));
            crate::a_block_support::lemma_ipb_pos(sb);
            lemma_resolve_on_disk(disk0, sb, self.cwd(), prefix@);
            crate::a_block_support::lemma_sb_bounds(sb);
            assert forall|j: int| 1 <= j < sb.ninodes && (forall|k: int| 1 <= k < j ==> #[trigger] crate::b_inode_support::used_inode(disk0, sb, k))
                implies #[trigger] disk_inode(disk0, sb, j) is Some by {
                assert(disk_inode(disk0, sb, j) matches Some(d));
            }
        }
        let new_dir_inum = match self.i_alloc(FType::TDir) {
            Ok(i) => i,
            Err(e) => return Err(e),
        };
        let ghost disk1 = self.disk();
        let ghost fresh = DInodeView {
            ft: FType::TDir,
            nlink: disk_inode(disk0, sb, new_dir_inum as int).unwrap().nlink,
            size: 0,
            blocks: no_blocks(),
        };
        proof {
            crate::b_inode_support::lemma_inode_write_read(disk0, disk1, sb, new_dir_inum as int, fresh, pi);
            crate::b_inode_support::lemma_inode_write_read(disk0, disk1, sb, new_dir_inum as int, fresh, new_dir_inum as int);
            assert(disk_inode(disk0, sb, new_dir_inum as int) matches Some(d) && d.nlink < u16::MAX);
            assert(free_inode(disk0, sb, new_dir_inum as int));
            crate::b_inode_support::lemma_inode_location(sb, new_dir_inum as int);
            assert(forall|b: int| sb.bmapstart <= b < sb.nblocks ==> #[trigger] disk1[b] == disk0[b]);
            crate::write_model::lemma_bits_frame(disk0, disk1, sb);
            crate::write_model::lemma_free_same(disk0, disk1, sb, sb.ndatablocks as int);
            if pd.ft == FType::TDir && pi != new_dir_inum {
                lemma_put_keeps(disk0, disk1, sb, new_dir_inum as int, fresh);
                if dir_ok(disk0, sb, pd) {
                    lemma_entry_bytes_frame(disk0, disk1, sb, disk0, pd);
                } else {
                    lemma_entry_bytes_frame_used(disk0, disk1, sb, pd);
                }
                lemma_find_free_congruent(disk0, disk1, bs, pd, pd, 0);
                lemma_find_name_congruent(disk0, disk1, bs, pd, pd, new_dirname@, 0);
                if !dir_ok(disk0, sb, pd) {
                    let off = link_offset(disk0, bs, pd);
                    let first = off / bs;
                    let last = first + write_range_count(22, off % bs, bs);
                    assert(link_offset(disk1, bs, pd) == off);
                    crate::b_inode_support::lemma_inode_location(sb, pi);
                    assert(met_sound(disk1, sb, pd, first, last)) by {
                        assert forall|j: int| first <= j < last && #[trigger] ptr(pd, j) != 0 implies meetable(disk1, sb, ptr(pd, j) as int) by {
                            assert(meetable(disk0, sb, ptr(pd, j) as int));
                        }
                    }
                    assert(!pointed(pd, first, last, inode_block_of(sb, pi))) by {
                        if pointed(pd, first, last, inode_block_of(sb, pi)) {
                            let w = choose|w: int| first <= w < last && #[trigger] ptr(pd, w) == inode_block_of(sb, pi);
                            assert(ptr(pd, w) != 0);
                        }
                    }
                    assert(!pointed(pd, first, last, inode_block_of(sb, new_dir_inum as int))) by {
                        if pointed(pd, first, last, inode_block_of(sb, new_dir_inum as int)) {
                            let w = choose|w: int| first <= w < last && #[trigger] ptr(pd, w) == inode_block_of(sb, new_dir_inum as int);
                            assert(ptr(pd, w) != 0);
                        }
                    }
                    assert(write_meets_ok(disk1, sb, pd, pi, off, 22));
                }
            }
            if pd.ft == FType::TDir && disk_inode(disk1, sb, pi) == Some(pd) {
                if pi != new_dir_inum {
                    if dir_ok(disk0, sb, pd) {
                        lemma_inode_put_frame(disk0, disk1, pd, sb, new_dir_inum as int, fresh);
                    }
                } else {
                    assert(pd == fresh);
                    assert(crate::a_block_support::ceil_div(0, bs) == 0);
                }
            }
        }
        match self.dirlink(&mut parent_inode, new_dirname, new_dir_inum) {
            Ok(_) => {},
            Err(e) => return Err(e),
        }
        let ghost disk2 = self.disk();
        let ghost pd1 = parent_inode.disk_node@;
        let mut new_dir_inode = match self.i_get(new_dir_inum) {
            Ok(ino) => ino,
            Err(e) => return Err(e),
        };
        let ghost nd0 = new_dir_inode.disk_node@;
        proof {
            assert(pi != new_dir_inum);
            assert(nd0 == with_nlink(fresh, fresh.nlink + 1));
            assert(crate::a_block_support::ceil_div(0, bs) == 0);
            assert(entry_count(nd0) == 0);
            assert(find_free(disk2, bs, nd0, 0) is None);
            assert(link_offset(disk2, bs, nd0) == 0);
            reveal_strlit(".");
            assert(("."@) =~= seq!['.']);
            assert(lookup_index(disk2, sb, nd0, seq!['.']) is None);
            assert(write_range_count(22, 0, bs) == 1);
            assert(missing_ptrs(nd0, 0, 1) == 1) by {
                assert(missing_ptrs(nd0, 0, 0) == 0);
            }
        }
        match self.dirlink(&mut new_dir_inode, ".", new_dir_inum) {
            Ok(_) => {},
            Err(e) => return Err(e),
        }
        let ghost disk3 = self.disk();
        let ghost nd1 = new_dir_inode.disk_node@;
        proof {
            reveal_strlit(".");
            reveal_strlit("..");
            assert(("."@) =~= seq!['.']);
            assert(("..")@ =~= seq!['.', '.']);
            assert(dir_entry(disk3, bs, nd1, 0) == entry_at(disk3, bs, nd1, 0));
            assert(find_free(disk3, bs, nd1, 1) is None);
            assert(find_free(disk3, bs, nd1, 0) is None);
            assert(link_offset(disk3, bs, nd1) == 22);
            crate::c_dirs_support::lemma_name_round_trip(seq!['.']);
            assert(seq!['.'] != seq!['.', '.']);
            assert(find_name(disk3, bs, nd1, seq!['.', '.'], 1) is None);
            assert(lookup_index(disk3, sb, nd1, seq!['.', '.']) is None);
            assert(write_range_count(22, 22, bs) == 1);
            assert(crate::a_block_support::ceil_div(22, bs) == 1) by {
                vstd::arithmetic::div_mod::lemma_fundamental_div_mod_converse(22, bs, 0, 22);
            }
            assert(crate::e_inode_rw_support::ptr(nd1, 0) != 0);
            assert(missing_ptrs(nd1, 0, 1) == 0) by {
                assert(missing_ptrs(nd1, 0, 0) == 0);
            }
            assert(22int / bs == 0 && 22int % bs == 22) by {
                vstd::arithmetic::div_mod::lemma_small_mod(22, bs as nat);
                vstd::arithmetic::div_mod::lemma_basic_div(22, bs);
            }
            assert(disk_inode(disk3, sb, new_dir_inum as int) == Some(nd1));
            assert(inode_in_range(sb, pi));
            assert(disk_inode(disk3, sb, pi) == disk_inode(disk2, sb, pi));
            assert(disk_inode(disk3, sb, pi) matches Some(t) && t.ft == FType::TDir);
            assert(valid_dirname(("..")@));
        }
        match self.dirlink(&mut new_dir_inode, "..", parent_inode.get_inum()) {
            Ok(_) => {},
            Err(e) => return Err(e),
        }
        proof {
            let disk4 = self.disk();
            let nd2 = new_dir_inode.disk_node@;
            assert(dir_entry(disk4, bs, nd2, 1) == entry_at(disk4, bs, nd2, 22));
            assert(dir_entry(disk4, bs, nd2, 0) == dir_entry(disk3, bs, nd1, 0));
            if !dir_ok(disk0, sb, pd) {
                let off = link_offset(disk0, bs, pd);
                let first = off / bs;
                let io = off % bs;
                let nr = write_range_count(22, io, bs);
                let t2 = disk_inode(disk2, sb, pi).unwrap();
                let pdf = disk_inode(disk4, sb, pi).unwrap();
                assert(link_offset(disk1, bs, pd) == off);
                assert(disk_inode(disk3, sb, pi) == disk_inode(disk2, sb, pi));
                crate::write_model::lemma_wr_facts(22, io, bs, 0);
                vstd::arithmetic::div_mod::lemma_fundamental_div_mod(off, bs);
                vstd::arithmetic::div_mod::lemma_mod_bound(off, bs);
                vstd::arithmetic::div_mod::lemma_div_pos_is_pos(off, bs);
                assert(off == first * bs + io) by (nonlinear_arith)
                    requires
                        off == bs * (off / bs) + off % bs,
                        first == off / bs,
                        io == off % bs,
                ;
                assert forall|x: int| 0 <= x < 22 implies #[trigger] file_byte(disk4, bs, pdf, off + x) == file_byte(disk2, bs, pd1, off + x) by {
                    crate::write_model::lemma_wblock(first, io, bs, nr, 22, x);
                    let j = (off + x) / bs;
                    assert(first <= j < first + nr);
                    let b = ptr(pd1, j) as int;
                    assert(ptr(pdf, j) == ptr(t2, j));
                    assert(ptr(t2, j) == ptr(pd1, j)) by {
                        if !(pd.size < off + 22) {
                            crate::b_inode_support::lemma_div_lt_ceil(off + x, pd.size as int, bs);
                            vstd::arithmetic::div_mod::lemma_div_pos_is_pos(off + x, bs);
                            assert(ptr(pd, j) != 0);
                        }
                    }
                    assert(b != 0);
                    assert(meetable(disk2, sb, b));
                    assert(sb.datastart <= b) by {
                        if ptr(pd, j) != 0 {
                            assert(ptr(pd1, j) == ptr(pd, j));
                        }
                    }
                    assert(held(disk2, sb, b));
                    assert(!pointed(nd0, 0, 12, b)) by {
                        if pointed(nd0, 0, 12, b) {
                            let w = choose|w: int| 0 <= w < 12 && #[trigger] ptr(nd0, w) == b;
                            assert(ptr(nd0, w) == 0);
                        }
                    }
                    assert(disk3[b] == disk2[b]);
                    assert(held(disk3, sb, b));
                    assert(!pointed(nd1, 0, 12, b)) by {
                        if pointed(nd1, 0, 12, b) {
                            let w = choose|w: int| 0 <= w < 12 && #[trigger] ptr(nd1, w) == b;
                            assert(ptr(nd0, w) == 0);
                        }
                    }
                    assert(disk4[b] == disk3[b]);
                }
                assert(entry_at(disk4, bs, pdf, off) == entry_at(disk2, bs, pd1, off)) by {
                    assert(Seq::new(22, |x: int| file_byte(disk4, bs, pdf, off + x)) =~= Seq::new(22, |x: int| file_byte(disk2, bs, pd1, off + x)));
                }
                crate::b_inode_support::lemma_inode_location(sb, pi);
                crate::b_inode_support::lemma_inode_location(sb, new_dir_inum as int);
                assert forall|k: int| 0 <= k < entry_count(pd) && (k * 22 + 22 <= off || off + 22 <= k * 22)
                    implies #[trigger] dir_entry(disk4, bs, pdf, k) == dir_entry(disk0, bs, pd, k) by {
                    assert forall|x: int| 0 <= x < 22 implies #[trigger] entry_bytes(disk4, bs, pdf, k)[x] == entry_bytes(disk0, bs, pd, k)[x] by {
                        let p = k * 22 + x;
                        vstd::arithmetic::div_mod::lemma_fundamental_div_mod(pd.size as int, 22);
                        assert(0 <= p < pd.size) by (nonlinear_arith)
                            requires
                                0 <= k < entry_count(pd),
                                entry_count(pd) == pd.size as int / 22,
                                pd.size as int == 22 * (pd.size as int / 22) + pd.size as int % 22,
                                0 <= x < 22,
                                p == k * 22 + x,
                        ;
                        crate::b_inode_support::lemma_div_lt_ceil(p, pd.size as int, bs);
                        vstd::arithmetic::div_mod::lemma_div_pos_is_pos(p, bs);
                        let j = p / bs;
                        assert(ptr(pd, j) != 0);
                        let b = ptr(pd, j) as int;
                        assert(sb.datastart <= b);
                        assert(file_byte(disk1, bs, pd, p) == file_byte(disk0, bs, pd, p));
                        if first <= j < first + nr {
                            assert(meetable(disk0, sb, b));
                        } else {
                            assert(held(disk0, sb, b));
                            assert(meetable(disk1, sb, b));
                        }
                        assert(out_of_reach(disk1, pd, sb, first, first + nr, p));
                        assert(file_byte(disk2, bs, pd1, p) == file_byte(disk1, bs, pd, p));
                        assert(ptr(pd1, j) == b);
                        assert(held(disk2, sb, b));
                        assert(!pointed(nd0, 0, 12, b)) by {
                            if pointed(nd0, 0, 12, b) {
                                let w = choose|w: int| 0 <= w < 12 && #[trigger] ptr(nd0, w) == b;
                                assert(ptr(nd0, w) == 0);
                            }
                        }
                        assert(disk3[b] == disk2[b]);
                        assert(held(disk3, sb, b));
                        assert(!pointed(nd1, 0, 12, b)) by {
                            if pointed(nd1, 0, 12, b) {
                                let w = choose|w: int| 0 <= w < 12 && #[trigger] ptr(nd1, w) == b;
                                assert(ptr(nd0, w) == 0);
                            }
                        }
                        assert(disk4[b] == disk3[b]);
                        assert(ptr(pdf, j) == b);
                        assert(entry_bytes(disk4, bs, pdf, k)[x] == file_byte(disk4, bs, pdf, p));
                        assert(entry_bytes(disk0, bs, pd, k)[x] == file_byte(disk0, bs, pd, p));
                    }
                    assert(entry_bytes(disk4, bs, pdf, k) =~= entry_bytes(disk0, bs, pd, k));
                }
                if pd.size % 22 == 0 {
                    crate::c_dirs_support::lemma_link_then_lookup(disk0, pd, disk4, pdf, sb, new_dir_inum as u64, new_dirname@);
                }
            }
            if dir_ok(disk0, sb, pd) {
                lemma_mkdir_parent(disk0, disk1, disk2, disk3, disk4, sb, self.cwd(), path@, pi, pd, pd1, new_dir_inum as int, nd0, nd1, fresh);
                let t3 = disk_inode(disk3, sb, pi).unwrap();
                assert(disk_inode(disk3, sb, pi) == Some(pd1) || disk_inode(disk3, sb, pi) == Some(pd));
                if dirs_readable(disk0, sb) {
                    lemma_mkdir_keeps_readable(disk0, disk2, disk4, sb, pi, pd, pd1, t3, new_dir_inum as int, nd2);
                }
            }
        }
        Ok(new_dir_inode)
    }

    /// Removes the entry `path` names from its parent directory: refuses `.`
    /// and `..`, and a directory with entries other than two; clears the
    /// entry (writes zero bytes over it), and, unless it names the parent
    /// itself, takes a link off its inode; an inode left without links is
    /// freed with its data blocks, and, when it is a directory, takes a link
    /// off the directory its entry `..` names (see [`unlink_target`] and
    /// [`unlink_done`]). Fails with `Path` when `path` is not valid or is `/`
    /// alone, with
    /// `Unlink` for the refusals above, and otherwise as the steps fail. When
    /// the block pointers the clearing write meets can be written through and
    /// do not hold the removed inode (see [`clear_apart`]), it fails with
    /// `OutOfBlocks` exactly when the entry does not fit the parent's blocks,
    /// and succeeds with the entry cleared when the inode keeps a link (which
    /// it then takes off) or can be freed (see [`can_free`]; it is then freed,
    /// and a directory takes a link off the inode its entry `..` names, when
    /// the clearing write does not meet that inode's block either, see
    /// [`dotdot_apart`]). Everything the steps change is stated when the
    /// parent and, for a directory, the inode removed have sound block
    /// pointers (see [`dir_ok`]); it succeeds then unless the entry does not
    /// fit the parent's blocks, or an inode left without links cannot be
    /// freed (see [`can_free`]).
    #[verifier::rlimit(60)]
    pub fn unlink(&mut self, path: &str) -> (r: Result<(), PathError>)
        requires
            old(self).inv(),
            entry_path(path@) ==> resolve_readable(old(self).disk(), old(self).sb(), old(self).cwd(), parent_and_entry(path@).0)
                && target_readable(old(self).disk(), old(self).sb(), old(self).cwd(), parent_and_entry(path@).0),
            unlink_target(old(self).disk(), old(self).sb(), old(self).cwd(), path@) matches Some((_, _, _, _, rd))
                ==> (rd.ft == FType::TDir ==> data_readable(rd, old(self).sb())),
        ensures
            final(self).inv(),
            final(self).sb() == old(self).sb(),
            final(self).cwd() == old(self).cwd(),
            !(path_ok(path@) && pieces(path@).len() > 0) ==> (r matches Err(PathError::Path(_))) && final(self).disk() == old(self).disk(),
            path_ok(path@) && pieces(path@).len() > 0 && (parent_and_entry(path@).1 == seq!['.'] || parent_and_entry(path@).1 == seq!['.', '.'])
                ==> (r matches Err(PathError::Unlink(_))) && final(self).disk() == old(self).disk(),
            unlink_target(old(self).disk(), old(self).sb(), old(self).cwd(), path@) is None ==> r is Err && final(self).disk() == old(self).disk(),
            unlink_target(old(self).disk(), old(self).sb(), old(self).cwd(), path@) matches Some((pi, pd, k, e, rd)) ==> {
                let sb = old(self).sb();
                let d0 = old(self).disk();
                let nonempty = rd.ft == FType::TDir && used_entries(d0, sb.block_size as int, rd, entry_count(rd)) > 2;
                let short = clear_short(d0, sb, pd, k);
                let freed = e != pi && rd.nlink == 1;
                let sound = dir_ok(d0, sb, pd) && (rd.ft == FType::TDir ==> dir_ok(d0, sb, rd));
                &&& nonempty ==> (r matches Err(PathError::Unlink(_))) && final(self).disk() == d0
                &&& !nonempty && freed && rd.ft == FType::TFree ==> r is Err
                &&& sound && !nonempty && short ==> (r matches Err(PathError::Backend(DirectoryError::Backend(InodeRWError::OutOfBlocks(_)))))
                &&& !nonempty && short && clear_apart(d0, sb, pi, pd, k, e) ==> (r matches Err(PathError::Backend(DirectoryError::Backend(InodeRWError::OutOfBlocks(_)))))
                &&& !nonempty && !short && !freed && clear_apart(d0, sb, pi, pd, k, e) ==> {
                    &&& r is Ok
                    &&& entry_bytes(final(self).disk(), sb.block_size as int, pd, k) == zeros(22)
                    &&& e != pi ==> disk_inode(final(self).disk(), sb, e) == Some(with_nlink(rd, one_link_less(rd.nlink) as int))
                }
                &&& !nonempty && !short && freed && (rd.ft == FType::TDir ==> dotdot_apart(d0, sb, pd, k, rd)) && clear_apart(d0, sb, pi, pd, k, e)
                    && can_free(d0, sb, pd, k, e, rd) ==> {
                    &&& r is Ok
                    &&& entry_bytes(final(self).disk(), sb.block_size as int, pd, k) == zeros(22)
                    &&& disk_inode(final(self).disk(), sb, e) == Some(DInodeView { ft: FType::TFree, nlink: 0, size: rd.size, blocks: no_blocks() })
                    &&& rd.ft == FType::TDir ==> (lookup_index(d0, sb, rd, seq!['.', '.']) matches Some(y) ==> {
                        let q = dir_entry(d0, sb.block_size as int, rd, y).inum as int;
                        let dq = disk_inode(d0, sb, q).unwrap();
                        disk_inode(final(self).disk(), sb, q) == Some(with_nlink(dq, dq.nlink - 1))
                    })
                }
                &&& sound && !nonempty && !short && (freed ==> can_free(d0, sb, pd, k, e, rd)) ==> r is Ok
                &&& sound && r is Ok ==> !nonempty && !short && unlink_done(d0, final(self).disk(), sb, pi, pd, k, e, rd)
                &&& sound && r is Ok && dirs_readable(d0, sb) ==> dirs_readable(final(self).disk(), sb)
            },
    {
        let ghost sb = self.sb();
        let ghost bs = sb.block_size as int;
        let ghost disk0 = self.disk();
        let (prefix, to_remove) = match split_parent_entry(path) {
            Some(pair) => pair,
            None => return Err(PathError::Path("invalid format.")),
        };
        if is_dotdot(to_remove) {
            return Err(PathError::Unlink("cannot remove entry .. as it is fixed."));
        }
        if is_dot(to_remove) {
            return Err(PathError::Unlink("cannot remove entry . as it is fixed."));
        }
        let mut parent_inode = match self.resolve_path(prefix) {
            Ok(ino) => ino,
            Err(e) => return Err(e),
        };
        let ghost pi = parent_inode.inum as int;
        let ghost pd = parent_inode.disk_node@;
        proof {
            lemma_resolve_on_disk(disk0, sb, self.cwd(), prefix@);
        }
        let (mut to_remove_inode, offset) = match self.dirlookup(&parent_inode, to_remove) {
            Ok(pair) => pair,
            Err(e) => return Err(e),
        };
        let ghost e = to_remove_inode.inum as int;
        let ghost rd = to_remove_inode.disk_node@;
        let ghost k = lookup_index(disk0, sb, pd, to_remove@).unwrap();
        let ghost sound = dir_ok(disk0, sb, pd) && (rd.ft == FType::TDir ==> dir_ok(disk0, sb, rd));
        proof {
            crate::a_block_support::lemma_sb_bounds(sb);
            assert(unlink_target(disk0, sb, self.cwd(), path@) == Some((pi, pd, lookup_index(disk0, sb, pd, to_remove@).unwrap(), e, rd)));

            crate::c_dirs_support::lemma_find_name_bound(disk0, bs, pd, to_remove@, 0);
            vstd::arithmetic::div_mod::lemma_fundamental_div_mod(pd.size as int, 22);
            assert(unlink_target(disk0, sb, self.cwd(), path@) == Some((pi, pd, k, e, rd)));
        }
        match self.count_entries(&to_remove_inode) {
            Some(num_entries) => {
                if num_entries > 2 {
                    return Err(PathError::Unlink("cannot remove non-empty directory."));
                }
            },
            None => {},
        }
        let buffer = Buffer::new_zero(DIRENTRY_SIZE);
        proof {
            assert(k * 22 + 22 <= pd.size);
            crate::c_dirs_support::lemma_readable_pieces(sb, pd, k * 22, 22);
            if pd.size > 12 * bs {
                crate::b_inode_support::lemma_div_lt_ceil(12 * bs, pd.size as int, bs);
                vstd::arithmetic::div_mod::lemma_div_by_multiple(12, bs);
                assert(ptr(pd, 12) != 0);
            }
        }
        match self.i_write(&mut parent_inode, &buffer, offset, DIRENTRY_SIZE) {
            Ok(()) => {},
            Err(e) => return Err(e),
        }
        let ghost disk1 = self.disk();
        let ghost pd1 = parent_inode.disk_node@;
        let ghost apart = clear_apart(disk0, sb, pi, pd, k, e);
        let ghost cfirst = (k * 22) / bs;
        let ghost cio = (k * 22) % bs;
        let ghost cnr = write_range_count(22, cio, bs);
        proof {
            if apart {
                crate::write_model::lemma_wr_facts(22, cio, bs, 0);
                vstd::arithmetic::div_mod::lemma_fundamental_div_mod(k * 22, bs);
                vstd::arithmetic::div_mod::lemma_mod_bound(k * 22, bs);
                vstd::arithmetic::div_mod::lemma_div_pos_is_pos(k * 22, bs);
                assert(k * 22 == cfirst * bs + cio) by (nonlinear_arith)
                    requires
                        k * 22 == bs * ((k * 22) / bs) + (k * 22) % bs,
                        cfirst == (k * 22) / bs,
                        cio == (k * 22) % bs,
                ;
                assert forall|x: int| 0 <= x < 22 implies #[trigger] file_byte(disk1, bs, pd, k * 22 + x) == 0u8
                    && first_block_of(bs, k * 22 + x, cfirst, cnr) by {
                    crate::write_model::lemma_wblock(cfirst, cio, bs, cnr, 22, x);
                    crate::b_inode_support::lemma_div_lt_ceil(k * 22 + x, pd.size as int, bs);
                    vstd::arithmetic::div_mod::lemma_div_pos_is_pos(k * 22 + x, bs);
                    assert(ptr(pd, (k * 22 + x) / bs) != 0);
                    assert(ptr(pd1, (k * 22 + x) / bs) == ptr(pd, (k * 22 + x) / bs));
                    assert(file_byte(disk1, bs, pd1, k * 22 + x) == buffer@[x]);
                }
                assert(entry_bytes(disk1, bs, pd, k) =~= zeros(22));
            }
            if sound {
                lemma_entry_cleared(disk0, pd, disk1, pd1, sb, pi, k);
                assert forall|j: int| 0 <= j && inode_in_range(sb, j) implies #[trigger] disk_inode(disk1, sb, j) == disk_inode(disk0, sb, j) by {}
            }
        }
        if parent_inode.get_inum() != to_remove_inode.get_inum() {
            let new_nlink = to_remove_inode.get_nlink().wrapping_sub(1);
            proof {
                if rd.nlink == 0 {
                    assert(0xffff_ffff_ffff_ffffu64 as u16 == 0xffffu16) by (bit_vector);
                }
            }
            to_remove_inode.disk_node.nlink = #[verifier::truncate] (new_nlink as u16);
            let ghost rd1 = to_remove_inode.disk_node@;
            assert(rd1 == with_nlink(rd, one_link_less(rd.nlink) as int));
            match self.i_put(&to_remove_inode) {
                Ok(()) => {},
                Err(e) => return Err(e),
            }
            let ghost disk2 = self.disk();
            proof {
                lemma_put_keeps(disk1, disk2, sb, e, rd1);
                if apart {
                    crate::b_inode_support::lemma_inode_location(sb, e);
                    let ib = inode_block_of(sb, e);
                    assert forall|x: int| 0 <= x < 22 implies #[trigger] file_byte(disk2, bs, pd, k * 22 + x) == file_byte(disk1, bs, pd, k * 22 + x) by {
                        assert(file_byte(disk1, bs, pd, k * 22 + x) == 0u8);
                        assert(first_block_of(bs, k * 22 + x, cfirst, cnr));
                        let b = ptr(pd, (k * 22 + x) / bs) as int;
                        assert(b != ib) by {
                            if b == ib {
                                assert(pointed(pd, cfirst, cfirst + cnr, ib));
                            }
                        }
                    }
                    assert(entry_bytes(disk2, bs, pd, k) =~= entry_bytes(disk1, bs, pd, k));
                }
            }
            if new_nlink == 0 {
                let ghost mut disk3 = disk2;
                let ghost mut q: int = -1;
                let ghost can = can_free(disk0, sb, pd, k, e, rd);
                let ghost gen_apart = apart && (rd.ft == FType::TDir ==> dotdot_apart(disk0, sb, pd, k, rd));
                proof {
                    assert forall|j: int| #[trigger] ptr(rd1, j) == ptr(rd, j) by {}
                    if (sound || gen_apart) && can && rd.ft == FType::TDir {
                        lemma_entries_kept(disk0, pd, disk1, pd1, sb, pi, k, rd);
                        lemma_entry_bytes_frame(disk1, disk2, sb, disk0, rd);
                        assert forall|j: int| 0 <= j < entry_count(rd) implies #[trigger] entry_bytes(disk2, bs, rd1, j) == entry_bytes(disk0, bs, rd, j) by {
                            assert(entry_bytes(disk2, bs, rd1, j) =~= entry_bytes(disk2, bs, rd, j));
                        }
                        reveal_strlit("..");
                        assert(("..")@ =~= seq!['.', '.']);
                        lemma_find_name_congruent(disk0, disk2, bs, rd, rd1, seq!['.', '.'], 0);
                        let y = lookup_index(disk0, sb, rd, seq!['.', '.']);
                        if y is Some {
                            crate::c_dirs_support::lemma_find_name_bound(disk0, bs, rd, seq!['.', '.'], 0);
                            assert(entry_bytes(disk2, bs, rd1, y.unwrap()) == entry_bytes(disk0, bs, rd, y.unwrap()));
                            let qq = dir_entry(disk0, bs, rd, y.unwrap()).inum as int;
                            assert(dir_entry(disk2, bs, rd1, y.unwrap()).inum as int == qq);
                            if !sound {
                                crate::b_inode_support::lemma_inode_location(sb, qq);
                                let iq = inode_block_of(sb, qq);
                                assert(!pointed(pd1, cfirst, cfirst + cnr, iq)) by {
                                    if pointed(pd1, cfirst, cfirst + cnr, iq) {
                                        let w = choose|w: int| cfirst <= w < cfirst + cnr && #[trigger] ptr(pd1, w) == iq;
                                        if ptr(pd, w) != 0 {
                                            assert(ptr(pd1, w) == ptr(pd, w));
                                            assert(pointed(pd, cfirst, cfirst + cnr, iq));
                                        } else {
                                            assert(sb.datastart <= ptr(pd1, w));
                                        }
                                    }
                                }
                                assert(disk_inode(disk1, sb, qq) == disk_inode(disk0, sb, qq));
                            }
                            assert(disk_inode(disk2, sb, qq) == disk_inode(disk0, sb, qq));
                        }
                    }
                }
                if to_remove_inode.disk_node.ft == FType::TDir {
                    match self.dirlookup(&to_remove_inode, "..") {
                        Ok((real_parent, _)) => {
                            let mut real_parent = real_parent;
                            if real_parent.disk_node.nlink == 0 {
                                return Err(PathError::Unlink("the parent directory has no link left."));
                            }
                            let ghost dq = real_parent.disk_node@;
                            real_parent.disk_node.nlink = real_parent.disk_node.nlink - 1;
                            match self.i_put(&real_parent) {
                                Ok(()) => {},
                                Err(e) => return Err(e),
                            }
                            proof {
                                q = real_parent.inum as int;
                                disk3 = self.disk();
                                assert(q != e);
                                assert(real_parent.disk_node@ == with_nlink(dq, dq.nlink - 1));
                                lemma_put_keeps(disk2, disk3, sb, q, with_nlink(dq, dq.nlink - 1));
                            }
                        },
                        Err(PathError::Backend(DirectoryError::ItemNotFound)) => {},
                        Err(e) => return Err(e),
                    }
                }
                let ghost s = blocks_to_free(rd1.size, rd1.blocks, sb);
                assert(disk_inode(self.disk(), sb, e) == Some(rd1));
                assert(rd1.nlink == 0);
                let ghost file_apart = gen_apart;
                proof {
                    if (sound || file_apart) && can {
                        crate::b_inode_support::lemma_inode_location(sb, e);
                        crate::b_inode_support::lemma_inode_location(sb, pi);
                        assert(forall|b: int| sb.bmapstart <= b < sb.datastart ==> #[trigger] disk2[b] == disk1[b]);
                        crate::write_model::lemma_bits_frame(disk1, disk2, sb);
                        if q >= 0 {
                            crate::b_inode_support::lemma_inode_location(sb, q);
                            assert(forall|b: int| sb.bmapstart <= b < sb.datastart ==> #[trigger] disk3[b] == disk2[b]);
                        }
                        crate::write_model::lemma_bits_frame(disk2, disk3, sb);
                        assert(blocks_sound(disk3, sb, rd1)) by {
                            assert forall|j: int| 0 <= j < 12 && #[trigger] ptr(rd1, j) != 0 implies
                                bitmap_bit(disk3, sb, ptr(rd1, j) - sb.datastart) by {
                                assert(bitmap_bit(disk0, sb, ptr(rd, j) - sb.datastart));
                                assert(bitmap_bit(disk1, sb, ptr(rd, j) - sb.datastart));
                            }
                        }
                        assert(data_readable(rd1, sb));
                        crate::b_inode_support::lemma_free_file_full(disk3, sb, rd1);
                    }
                }
                match self.i_free(to_remove_inode.get_inum()) {
                    Ok(()) => {},
                    Err(e) => return Err(e),
                }
                proof {
                    if file_apart && can {
                        let fa = free_all(disk3, sb, s);
                        let fin = self.disk();
                        let freed = DInodeView { ft: FType::TFree, nlink: 0, size: rd.size, blocks: no_blocks() };
                        lemma_free_keeps(disk3, sb, s);
                        crate::b_inode_support::lemma_free_all_frame(disk3, sb, s);
                        lemma_put_keeps(fa, fin, sb, e, freed);
                        crate::b_inode_support::lemma_inode_location(sb, e);
                        if q >= 0 {
                            crate::b_inode_support::lemma_inode_location(sb, q);
                        }
                        assert forall|x: int| 0 <= x < 22 implies #[trigger] file_byte(fin, bs, pd, k * 22 + x) == file_byte(disk2, bs, pd, k * 22 + x) by {
                            assert(file_byte(disk1, bs, pd, k * 22 + x) == 0u8);
                            assert(first_block_of(bs, k * 22 + x, cfirst, cnr));
                            crate::b_inode_support::lemma_div_lt_ceil(k * 22 + x, pd.size as int, bs);
                            vstd::arithmetic::div_mod::lemma_div_pos_is_pos(k * 22 + x, bs);
                            assert(ptr(pd, (k * 22 + x) / bs) != 0);
                            let b = ptr(pd, (k * 22 + x) / bs) as int;
                            assert(b != inode_block_of(sb, e)) by {
                                if b == inode_block_of(sb, e) {
                                    assert(pointed(pd, cfirst, cfirst + cnr, inode_block_of(sb, e)));
                                }
                            }
                            assert(meetable(disk0, sb, b));
                            if q >= 0 {
                                assert(b != inode_block_of(sb, q)) by {
                                    if b == inode_block_of(sb, q) {
                                        assert(pointed(pd, cfirst, cfirst + cnr, inode_block_of(sb, q)));
                                    }
                                }
                            }
                            assert(disk3[b] == disk2[b]);
                            assert(fa[b] == disk3[b]);
                            assert(fin[b] == fa[b]);
                        }
                        assert(entry_bytes(fin, bs, pd, k) =~= entry_bytes(disk2, bs, pd, k));
                    }
                    if sound {
                        let fa = free_all(disk3, sb, s);
                        let fin = self.disk();
                        let freed = DInodeView { ft: FType::TFree, nlink: 0, size: rd.size, blocks: no_blocks() };
                        lemma_free_count_bound(disk3, sb, s);
                        lemma_free_keeps(disk3, sb, s);
                        lemma_put_keeps(fa, fin, sb, e, freed);
                        crate::b_inode_support::lemma_free_all_clears(disk3, sb, s);
                        crate::b_inode_support::lemma_inode_location(sb, e);
                        assert(forall|b: int| sb.bmapstart <= b < sb.datastart ==> #[trigger] fin[b] == fa[b]);
                        crate::write_model::lemma_bits_frame(fa, fin, sb);
                        assert(s == blocks_to_free(rd.size, rd.blocks, sb));
                        assert forall|x: int| 0 <= x < s.len() implies !#[trigger] bitmap_bit(fin, sb, s[x] as int) by {
                            assert(!bitmap_bit(fa, sb, s[x] as int));
                            assert(s[x] < sb.ndatablocks);
                            assert(bitmap_bit(fin, sb, s[x] as int) == bitmap_bit(fa, sb, s[x] as int));
                        }
                        assert(data_same(disk1, fin, sb));
                        lemma_clear_data_frame(disk0, disk1, fin, sb, pi, pd, pd1, k, zeros(22));
                        assert(forall|b: int| sb.bmapstart <= b < sb.datastart ==> #[trigger] disk2[b] == disk1[b]);
                        crate::write_model::lemma_bits_frame(disk1, disk2, sb);
                        if q >= 0 {
                            crate::b_inode_support::lemma_inode_location(sb, q);
                            assert(forall|b: int| sb.bmapstart <= b < sb.datastart ==> #[trigger] disk3[b] == disk2[b]);
                        }
                        crate::write_model::lemma_bits_frame(disk2, disk3, sb);
                        lemma_entry_bytes_frame(disk1, fin, sb, disk0, pd);
                        if rd.ft == FType::TDir {
                            assert(data_same(disk2, fin, sb));
                            lemma_entry_bytes_frame(disk2, fin, sb, disk0, rd);
                            assert forall|j: int| 0 <= j < entry_count(rd) implies #[trigger] entry_bytes(fin, bs, rd, j) == entry_bytes(disk2, bs, rd1, j) by {
                                assert(entry_bytes(disk2, bs, rd1, j) =~= entry_bytes(disk2, bs, rd, j));
                            }
                            reveal_strlit("..");
                            assert(("..")@ =~= seq!['.', '.']);
                            lemma_find_name_congruent(disk2, fin, bs, rd1, rd, seq!['.', '.'], 0);
                            let dd = lookup_index(fin, sb, rd, seq!['.', '.']);
                            if dd is Some {
                                crate::c_dirs_support::lemma_find_name_bound(fin, bs, rd, seq!['.', '.'], 0);
                                assert(entry_bytes(fin, bs, rd, dd.unwrap()) == entry_bytes(disk2, bs, rd1, dd.unwrap()));
                                assert(q == dir_entry(fin, bs, rd, dd.unwrap()).inum as int);
                            } else {
                                assert(q == -1);
                            }
                        } else {
                            assert(q == -1);
                        }
                        assert(unlink_done(disk0, fin, sb, pi, pd, k, e, rd));
                    }
                }
            } else {
                proof {
                    if sound {
                        lemma_entry_bytes_frame(disk1, disk2, sb, disk0, pd);
                        lemma_clear_data_frame(disk0, disk1, disk2, sb, pi, pd, pd1, k, zeros(22));
                        crate::b_inode_support::lemma_inode_location(sb, e);
                        assert(forall|b: int| sb.bmapstart <= b < sb.datastart ==> #[trigger] disk2[b] == disk1[b]);
                        crate::write_model::lemma_bits_frame(disk1, disk2, sb);
                    }
                }
            }
        } else {
            proof {
                if sound {
                    lemma_entry_bytes_frame(disk1, disk1, sb, disk0, pd);
                    lemma_clear_data_frame(disk0, disk1, disk1, sb, pi, pd, pd1, k, zeros(22));
                }
            }
        }
        proof {
            if sound && dirs_readable(disk0, sb) {
                assert(unlink_done(disk0, self.disk(), sb, pi, pd, k, e, rd));
                lemma_unlink_keeps_readable(disk0, self.disk(), sb, pi, pd, k, e, rd);
            }
        }
        Ok(())
    }
}

} // verus!
