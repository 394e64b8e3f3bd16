//! Where a stable storage kept in files puts each key: the key is framed by
//! `!` on both sides, cut in two by a `/` in the middle of its bytes, and
//! the resulting text, read as a path, names a directory that holds the
//! value in a file named `file`. A key whose path would hold an empty
//! component, `.`, `..` or `file` is refused, so that distinct keys get
//! distinct files. A value is first written under the directory
//! `not_yet_inserted`, then moved into place, so that a put is atomic.
use crate::domain::views;
use crate::schema::MAX_FILE_CONTENT;
use vstd::prelude::*;
use vstd::string::{StrSliceExecFns, StringExecFns, StringSliceAdditionalSpecFns};
use vstd::utf8::{encode_scalar, decode_utf8, encode_utf8, is_char_boundary, encode_utf8_decode_utf8, valid_utf8, valid_utf8_split, decode_utf8_encode_utf8};

verus! {

/// The longest key, in bytes.
pub const MAX_FILE_NAME: usize = 255;

/// Where the middle `/` goes among the bytes of a key of `len` bytes: the
/// middle of the framed key, less the opening `!`.
pub open spec fn cut_point(len: nat) -> int {
    (len + 2) / 2 - 1
}

proof fn lemma_cut_point(len: nat)
    ensures
        cut_point(len) == len / 2,
{
}

/// The framed and cut text of a key whose bytes are `kb`.
pub open spec fn transformed(kb: Seq<u8>) -> Seq<char> {
    let m = cut_point(kb.len());
    seq!['!'] + decode_utf8(kb.subrange(0, m)) + seq!['/'] + decode_utf8(kb.subrange(m, kb.len() as int)) + seq![
        '!',
    ]
}

/// The components of a path, joined by `/`.
pub open spec fn join_path(cs: Seq<Seq<char>>) -> Seq<char>
    decreases cs.len(),
{
    if cs.len() <= 1 {
        if cs.len() == 0 {
            Seq::empty()
        } else {
            cs[0]
        }
    } else {
        join_path(cs.drop_last()) + seq!['/'] + cs.last()
    }
}

/// Encoding a concatenation encodes each part.
pub proof fn lemma_encode_concat(a: Seq<char>, b: Seq<char>)
    ensures
        encode_utf8(a + b) == encode_utf8(a) + encode_utf8(b),
    decreases a.len(),
{
    if a.len() == 0 {
        assert(a + b =~= b);
    } else {
        lemma_encode_concat(a.drop_first(), b);
        assert((a + b).drop_first() =~= a.drop_first() + b);
        assert((a + b)[0] == a[0]);
    }
}

/// The number of bytes of `key`.
fn byte_len(key: &str) -> (n: usize)
    ensures
        n == key.spec_bytes().len(),
{
    let bytes = key.as_bytes();
    proof {
        broadcast use vstd::slice::axiom_spec_len;
    }
    bytes.len()
}

/// The framed and cut key: `!`, the key's bytes up to the middle of the
/// framed key, `/`, the rest of the key, `!`.
pub fn transform_key(key: &str) -> (r: String)
    requires
        is_char_boundary(key.spec_bytes(), cut_point(key.spec_bytes().len())),
    ensures
        r@ == transformed(key.spec_bytes()),
{
    let len = byte_len(key);
    proof {
        lemma_cut_point(key.spec_bytes().len());
    }
    let m = len / 2;
    let (first, second) = key.split_at(m);
    proof {
        broadcast use encode_utf8_decode_utf8;
        assert(first@ == decode_utf8(encode_utf8(first@)));
        assert(second@ == decode_utf8(encode_utf8(second@)));
        reveal_strlit("!");
        reveal_strlit("/");
        assert("!"@ =~= seq!['!']);
        assert("/"@ =~= seq!['/']);
    }
    let mut new_key = "!".to_owned();
    new_key.append(first);
    new_key.append("/");
    new_key.append(second);
    new_key.append("!");
    proof {
        assert(first.spec_bytes() == key.spec_bytes().subrange(0, m as int));
        assert(new_key@ =~= transformed(key.spec_bytes()));
    }
    new_key
}

/// Keys that take the same place are the same key.
pub proof fn lemma_transform_key_injective(a: Seq<u8>, b: Seq<u8>)
    requires
        valid_utf8(a),
        valid_utf8(b),
        is_char_boundary(a, cut_point(a.len())),
        is_char_boundary(b, cut_point(b.len())),
        transformed(a) == transformed(b),
    ensures
        a == b,
{
    let ma = cut_point(a.len());
    let mb = cut_point(b.len());
    valid_utf8_split(a, ma);
    valid_utf8_split(b, mb);
    let a1 = a.subrange(0, ma);
    let a2 = a.subrange(ma, a.len() as int);
    let b1 = b.subrange(0, mb);
    let b2 = b.subrange(mb, b.len() as int);
    decode_utf8_encode_utf8(a1);
    decode_utf8_encode_utf8(a2);
    decode_utf8_encode_utf8(b1);
    decode_utf8_encode_utf8(b2);
    let bang = seq!['!'];
    let slash = seq!['/'];
    assert(encode_utf8(bang) =~= seq![33u8]) by {
        assert(bang.drop_first() =~= Seq::<char>::empty());
        assert(bang[0] == '!');
        assert(('!' as u32) == 33);
        assert(encode_utf8(bang) == encode_scalar(bang[0] as u32) + encode_utf8(bang.drop_first()));
        assert(encode_utf8(Seq::<char>::empty()) == Seq::<u8>::empty());
        assert((33u32 & 0x7F) as u8 == 33u8) by (bit_vector);
    }
    assert(encode_utf8(slash) =~= seq![47u8]) by {
        assert(slash.drop_first() =~= Seq::<char>::empty());
        assert(slash[0] == '/');
        assert(('/' as u32) == 47);
        assert(encode_utf8(slash) == encode_scalar(slash[0] as u32) + encode_utf8(slash.drop_first()));
        assert(encode_utf8(Seq::<char>::empty()) == Seq::<u8>::empty());
        assert((47u32 & 0x7F) as u8 == 47u8) by (bit_vector);
    }
    let ta = transformed(a);
    lemma_encode_concat(bang, decode_utf8(a1));
    lemma_encode_concat(bang + decode_utf8(a1), slash);
    lemma_encode_concat(bang + decode_utf8(a1) + slash, decode_utf8(a2));
    lemma_encode_concat(bang + decode_utf8(a1) + slash + decode_utf8(a2), bang);
    lemma_encode_concat(bang, decode_utf8(b1));
    lemma_encode_concat(bang + decode_utf8(b1), slash);
    lemma_encode_concat(bang + decode_utf8(b1) + slash, decode_utf8(b2));
    lemma_encode_concat(bang + decode_utf8(b1) + slash + decode_utf8(b2), bang);
    let ea = seq![33u8] + a1 + seq![47u8] + a2 + seq![33u8];
    let eb = seq![33u8] + b1 + seq![47u8] + b2 + seq![33u8];
    assert(encode_utf8(transformed(a)) == ea);
    assert(encode_utf8(transformed(b)) == eb);
    assert(ea.len() == a.len() + 3);
    assert(eb.len() == b.len() + 3);
    assert(a.len() == b.len());
    assert(ma == mb);
    assert forall|i: int| 0 <= i < a.len() implies a[i] == b[i] by {
        if i < ma {
            assert(ea[i + 1] == a[i]);
            assert(eb[i + 1] == b[i]);
        } else {
            assert(ea[i + 2] == a[i]);
            assert(eb[i + 2] == b[i]);
        }
    }
    assert(a =~= b);
}

/// The components of `key` between its `/`s, in order: joined by `/` they
/// give the key back, and none holds a `/`.
pub fn key_to_path(key: &str) -> (r: Vec<String>)
    ensures
        r@.len() >= 1,
        join_path(views(r@)) == key@,
        forall|i: int| 0 <= i < r@.len() ==> !(#[trigger] r@[i]@).contains('/'),
{
    let n = key.unicode_len();
    let mut parts: Vec<String> = Vec::new();
    let mut start: usize = 0;
    let mut i: usize = 0;
    while i < n
        invariant
            n == key@.len(),
            start <= i <= n,
            forall|j: int| start <= j < i ==> key@[j] != '/',
            forall|j: int| 0 <= j < parts@.len() ==> !(#[trigger] parts@[j]@).contains('/'),
            parts@.len() == 0 ==> start == 0,
            parts@.len() > 0 ==> join_path(views(parts@)) + seq!['/'] == key@.subrange(0, start as int),
        decreases n - i,
    {
        if key.get_char(i) == '/' {
            let part = key.substring_char(start, i).to_owned();
            let ghost before = parts@;
            proof {
                assert(!part@.contains('/')) by {
                    if part@.contains('/') {
                        let j = choose|j: int| 0 <= j < part@.len() && part@[j] == '/';
                        assert(key@[start + j] == '/');
                    }
                }
            }
            parts.push(part);
            proof {
                assert(views(parts@) =~= views(before).push(part@));
                if before.len() == 0 {
                    assert(views(parts@).len() == 1);
                    assert(join_path(views(parts@)) == part@);
                } else {
                    assert(views(parts@).drop_last() =~= views(before));
                }
                assert(join_path(views(parts@)) + seq!['/'] =~= key@.subrange(0, i + 1));
                assert forall|j: int| 0 <= j < parts@.len() implies !(#[trigger] parts@[j]@).contains('/') by {
                    if j < before.len() {
                        assert(parts@[j] == before[j]);
                    }
                }
            }
            start = i + 1;
        }
        i = i + 1;
    }
    let last = key.substring_char(start, n).to_owned();
    let ghost before = parts@;
    proof {
        assert(!last@.contains('/')) by {
            if last@.contains('/') {
                let j = choose|j: int| 0 <= j < last@.len() && last@[j] == '/';
                assert(key@[start + j] == '/');
            }
        }
    }
    parts.push(last);
    proof {
        assert(views(parts@) =~= views(before).push(last@));
        if before.len() == 0 {
            assert(views(parts@).len() == 1);
            assert(join_path(views(parts@)) == last@);
            assert(key@.subrange(0, n as int) =~= key@);
        } else {
            assert(views(parts@).drop_last() =~= views(before));
        }
        assert(join_path(views(parts@)) =~= key@);
        assert forall|j: int| 0 <= j < parts@.len() implies !(#[trigger] parts@[j]@).contains('/') by {
            if j < before.len() {
                assert(parts@[j] == before[j]);
            }
        }
    }
    parts
}

/// The directory, under the root, where values are written before they are
/// moved into place.
pub open spec fn staging_name() -> Seq<char> {
    "not_yet_inserted"@
}

/// The name of the file that holds a value, in the directory of its key.
pub open spec fn file_name() -> Seq<char> {
    "file"@
}

/// `cs` are the components of the directory of the key whose bytes are `kb`.
pub open spec fn key_dir(cs: Seq<Seq<char>>, kb: Seq<u8>) -> bool {
    &&& cs.len() >= 1
    &&& join_path(cs) == transformed(kb)
    &&& forall|i: int| 0 <= i < cs.len() ==> !(#[trigger] cs[i]).contains('/')
}

/// A component that a file system takes as a name of its own, and that no
/// value file stands at: not empty, and neither `.`, `..` nor the name of
/// a value file.
pub open spec fn proper_component(c: Seq<char>) -> bool {
    &&& c.len() > 0
    &&& c != seq!['.']
    &&& c != seq!['.', '.']
    &&& c != file_name()
}

/// Every component of `cs` is proper.
pub open spec fn proper_path(cs: Seq<Seq<char>>) -> bool {
    forall|i: int| 0 <= i < cs.len() ==> proper_component(#[trigger] cs[i])
}

/// A key whose bytes are `kb` can be kept in files: the components of its
/// directory are proper, so that a file system resolves them to a
/// directory of their own.
pub open spec fn storable_key(kb: Seq<u8>) -> bool {
    forall|cs: Seq<Seq<char>>| #[trigger] key_dir(cs, kb) ==> proper_path(cs)
}

/// Components without `/` are given back by the path they make.
pub proof fn lemma_join_path_unique(c1: Seq<Seq<char>>, c2: Seq<Seq<char>>)
    requires
        c1.len() >= 1,
        c2.len() >= 1,
        forall|i: int| 0 <= i < c1.len() ==> !(#[trigger] c1[i]).contains('/'),
        forall|i: int| 0 <= i < c2.len() ==> !(#[trigger] c2[i]).contains('/'),
        join_path(c1) == join_path(c2),
    ensures
        c1 == c2,
    decreases c1.len() + c2.len(),
{
    let t = join_path(c1);
    if c1.len() == 1 && c2.len() == 1 {
        assert(c1 =~= c2);
    } else if c1.len() == 1 {
        lemma_join_path_slash(c2);
        assert(c1[0].contains('/')) by {
            assert(t[join_path(c2.drop_last()).len() as int] == '/');
        }
    } else if c2.len() == 1 {
        lemma_join_path_slash(c1);
        assert(c2[0].contains('/')) by {
            assert(t[join_path(c1.drop_last()).len() as int] == '/');
        }
    } else {
        let j1 = join_path(c1.drop_last());
        let j2 = join_path(c2.drop_last());
        let l1 = c1.last();
        let l2 = c2.last();
        assert(t == j1 + seq!['/'] + l1);
        assert(t == j2 + seq!['/'] + l2);
        assert(!l1.contains('/'));
        assert(!l2.contains('/'));
        if l1.len() < l2.len() {
            let p = j1.len() as int;
            assert(t[p] == '/');
            assert(l2[p - j2.len() - 1] == t[p]);
            assert(false);
        } else if l2.len() < l1.len() {
            let p = j2.len() as int;
            assert(t[p] == '/');
            assert(l1[p - j1.len() - 1] == t[p]);
            assert(false);
        }
        assert(l1 =~= l2) by {
            assert forall|k: int| 0 <= k < l1.len() implies l1[k] == l2[k] by {
                assert(l1[k] == t[j1.len() + 1 + k]);
                assert(l2[k] == t[j2.len() + 1 + k]);
            }
        }
        assert(j1 =~= j2) by {
            assert forall|k: int| 0 <= k < j1.len() implies j1[k] == j2[k] by {
                assert(j1[k] == t[k]);
                assert(j2[k] == t[k]);
            }
        }
        assert forall|i: int| 0 <= i < c1.drop_last().len() implies !(#[trigger] c1.drop_last()[i]).contains('/') by {
            assert(c1.drop_last()[i] == c1[i]);
        }
        assert forall|i: int| 0 <= i < c2.drop_last().len() implies !(#[trigger] c2.drop_last()[i]).contains('/') by {
            assert(c2.drop_last()[i] == c2[i]);
        }
        lemma_join_path_unique(c1.drop_last(), c2.drop_last());
        assert(c1 =~= c2) by {
            assert forall|k: int| 0 <= k < c1.len() implies c1[k] == c2[k] by {
                if k < c1.len() - 1 {
                    assert(c1[k] == c1.drop_last()[k]);
                    assert(c2[k] == c2.drop_last()[k]);
                }
            }
        }
    }
}

/// A path of more than one component has a `/` where its first part ends.
proof fn lemma_join_path_slash(cs: Seq<Seq<char>>)
    requires
        cs.len() > 1,
    ensures
        join_path(cs).len() > join_path(cs.drop_last()).len(),
        join_path(cs)[join_path(cs.drop_last()).len() as int] == '/',
{
    let j = join_path(cs.drop_last());
    assert(join_path(cs) == j + seq!['/'] + cs.last());
    assert((j + seq!['/'] + cs.last())[j.len() as int] == '/');
}

/// Every key without `/` is kept in files (where it is short enough): its
/// directory is the two components that the framing and the middle cut
/// make, neither empty, `.`, `..` nor `file`, whatever else the key holds.
pub proof fn law_keys_without_slash_are_storable(key: Seq<char>)
    requires
        is_char_boundary(encode_utf8(key), cut_point(encode_utf8(key).len())),
        !key.contains('/'),
    ensures
        storable_key(encode_utf8(key)),
        key_dir(
            seq![
                seq!['!'] + decode_utf8(encode_utf8(key).subrange(0, cut_point(encode_utf8(key).len()))),
                decode_utf8(
                    encode_utf8(key).subrange(cut_point(encode_utf8(key).len()), encode_utf8(key).len() as int),
                ) + seq!['!'],
            ],
            encode_utf8(key),
        ),
{
    broadcast use vstd::utf8::encode_utf8_valid_utf8;
    let kb = encode_utf8(key);
    let m = cut_point(kb.len());
    valid_utf8_split(kb, m);
    let a = kb.subrange(0, m);
    let b = kb.subrange(m, kb.len() as int);
    let c1 = decode_utf8(a);
    let c2 = decode_utf8(b);
    decode_utf8_encode_utf8(a);
    decode_utf8_encode_utf8(b);
    lemma_encode_concat(c1, c2);
    assert(a + b =~= kb);
    encode_utf8_decode_utf8(c1 + c2);
    encode_utf8_decode_utf8(key);
    assert(c1 + c2 == key);
    let p0 = seq!['!'] + c1;
    let p1 = c2 + seq!['!'];
    let cs0 = seq![p0, p1];
    assert(!c1.contains('/')) by {
        if c1.contains('/') {
            let j = choose|j: int| 0 <= j < c1.len() && c1[j] == '/';
            assert(key[j] == '/');
        }
    }
    assert(!c2.contains('/')) by {
        if c2.contains('/') {
            let j = choose|j: int| 0 <= j < c2.len() && c2[j] == '/';
            assert(key[c1.len() + j] == '/');
        }
    }
    assert(!p0.contains('/')) by {
        if p0.contains('/') {
            let j = choose|j: int| 0 <= j < p0.len() && p0[j] == '/';
            assert(j > 0);
            assert(c1[j - 1] == '/');
        }
    }
    assert(!p1.contains('/')) by {
        if p1.contains('/') {
            let j = choose|j: int| 0 <= j < p1.len() && p1[j] == '/';
            assert(j < c2.len());
            assert(c2[j] == '/');
        }
    }
    assert(cs0.drop_last() =~= seq![p0]);
    assert(join_path(cs0.drop_last()) == p0);
    assert(join_path(cs0) == p0 + seq!['/'] + p1);
    assert(p0 + seq!['/'] + p1 =~= transformed(kb));
    assert(key_dir(cs0, kb));
    reveal_strlit("file");
    assert(proper_path(cs0)) by {
        assert(p0[0] == '!');
        assert(p1[p1.len() - 1] == '!');
        assert(seq!['.'][0] == '.');
        assert(seq!['.', '.'][0] == '.');
        assert(seq!['.', '.'][1] == '.');
        assert(file_name()[0] == 'f');
        assert(file_name()[3] == 'e');
        assert(proper_component(p0));
        assert(proper_component(p1));
        assert forall|i: int| 0 <= i < cs0.len() implies proper_component(#[trigger] cs0[i]) by {
            if i == 0 {
                assert(cs0[i] == p0);
            } else {
                assert(cs0[i] == p1);
            }
        }
    }
    lemma_storable(cs0, kb);
}

/// A key is kept in files exactly where no component of its directory is
/// empty, `.`, `..` or `file`: those are the only refusals.
pub proof fn law_refused_exactly_for_bad_components(kb: Seq<u8>, cs: Seq<Seq<char>>)
    requires
        key_dir(cs, kb),
    ensures
        storable_key(kb) <==> forall|i: int|
            0 <= i < cs.len() ==> {
                &&& (#[trigger] cs[i]).len() > 0
                &&& cs[i] != seq!['.']
                &&& cs[i] != seq!['.', '.']
                &&& cs[i] != seq!['f', 'i', 'l', 'e']
            },
{
    lemma_storable(cs, kb);
    reveal_strlit("file");
    assert(file_name() =~= seq!['f', 'i', 'l', 'e']);
}

/// A key is storable exactly where the components of its directory are
/// proper.
proof fn lemma_storable(cs: Seq<Seq<char>>, kb: Seq<u8>)
    requires
        key_dir(cs, kb),
    ensures
        storable_key(kb) == proper_path(cs),
{
    assert forall|c: Seq<Seq<char>>| #[trigger] key_dir(c, kb) implies c == cs by {
        lemma_join_path_unique(c, cs);
    }
}

/// Whether the component `c` is proper.
fn is_proper_component(c: &str) -> (r: bool)
    ensures
        r == proper_component(c@),
{
    let n = c.unicode_len();
    proof {
        reveal_strlit("file");
    }
    if n == 0 {
        return false;
    }
    if n == 1 {
        let r = c.get_char(0) != '.';
        proof {
            if !r {
                assert(c@ =~= seq!['.']);
            } else {
                assert(c@ != seq!['.']) by {
                    assert(seq!['.'][0] == '.');
                }
            }
        }
        return r;
    }
    if n == 2 {
        let r = !(c.get_char(0) == '.' && c.get_char(1) == '.');
        proof {
            if !r {
                assert(c@ =~= seq!['.', '.']);
            } else {
                assert(c@ != seq!['.', '.']) by {
                    assert(seq!['.', '.'][0] == '.');
                    assert(seq!['.', '.'][1] == '.');
                }
            }
        }
        return r;
    }
    if n == 4 {
        let r = !(c.get_char(0) == 'f' && c.get_char(1) == 'i' && c.get_char(2) == 'l' && c.get_char(3) == 'e');
        proof {
            let fname = seq!['f', 'i', 'l', 'e'];
            assert(file_name() =~= fname);
            if !r {
                assert(c@ =~= fname);
            } else {
                assert(c@ != fname) by {
                    assert(fname[0] == 'f' && fname[1] == 'i' && fname[2] == 'l' && fname[3] == 'e');
                }
            }
        }
        return r;
    }
    proof {
        assert(file_name().len() == 4);
    }
    true
}

/// Whether every component of `cs` is proper.
fn all_proper(cs: &Vec<String>) -> (r: bool)
    ensures
        r == proper_path(views(cs@)),
{
    let mut i: usize = 0;
    while i < cs.len()
        invariant
            i <= cs@.len(),
            forall|j: int| 0 <= j < i ==> proper_component(#[trigger] views(cs@)[j]),
        decreases cs@.len() - i,
    {
        if !is_proper_component(cs[i].as_str()) {
            assert(views(cs@)[i as int] == cs@[i as int]@);
            return false;
        }
        assert(views(cs@)[i as int] == cs@[i as int]@);
        i = i + 1;
    }
    true
}

/// The paths, as components under the root of the storage, that a put
/// writes: the value goes to `temp_file` in the directory `temp_dir`, then
/// is moved to `final_file` in the directory `final_dir`.
pub struct PutPlan {
    pub temp_dir: Vec<String>,
    pub temp_file: Vec<String>,
    pub final_dir: Vec<String>,
    pub final_file: Vec<String>,
}

/// The directory, under the root, where values are written before they are
/// moved into place.
pub fn staging_dir() -> (r: String)
    ensures
        r@ == staging_name(),
{
    "not_yet_inserted".to_owned()
}

/// `cs` with `last` added.
fn with_last(cs: &Vec<String>, last: &str) -> (r: Vec<String>)
    ensures
        views(r@) == views(cs@).push(last@),
{
    let mut r: Vec<String> = Vec::new();
    let mut i: usize = 0;
    while i < cs.len()
        invariant
            i <= cs@.len(),
            views(r@) == views(cs@.subrange(0, i as int)),
        decreases cs@.len() - i,
    {
        let ghost before = views(r@);
        r.push(cs[i].clone());
        proof {
            assert(views(r@) =~= before.push(cs@[i as int]@));
            assert(views(cs@.subrange(0, i + 1)) =~= views(cs@.subrange(0, i as int)).push(cs@[i as int]@));
        }
        i = i + 1;
    }
    let ghost before = views(r@);
    r.push(last.to_owned());
    proof {
        assert(cs@.subrange(0, i as int) =~= cs@);
        assert(views(r@) =~= before.push(last@));
    }
    r
}

/// Where a put of a value of `value_len` bytes under `key` writes; refused,
/// with the storage's message, where the key has more than
/// `MAX_FILE_NAME` bytes or the value more than `MAX_FILE_CONTENT`, and
/// otherwise where the key cannot be kept in files (`storable_key`).
pub fn plan_put(key: &str, value_len: usize) -> (r: Result<PutPlan, String>)
    requires
        key.spec_bytes().len() <= MAX_FILE_NAME && value_len <= MAX_FILE_CONTENT ==> is_char_boundary(
            key.spec_bytes(),
            cut_point(key.spec_bytes().len()),
        ),
    ensures
        r is Err <==> key.spec_bytes().len() > MAX_FILE_NAME || value_len > MAX_FILE_CONTENT
            || !storable_key(key.spec_bytes()),
        key.spec_bytes().len() <= MAX_FILE_NAME && value_len <= MAX_FILE_CONTENT && !key@.contains('/')
            ==> r is Ok,
        r matches Err(e) ==> e@ == if key.spec_bytes().len() > MAX_FILE_NAME || value_len > MAX_FILE_CONTENT {
            "Too long name or too long content."@
        } else {
            "Key cannot be kept in files."@
        },
        r matches Ok(p) ==> {
            &&& key_dir(views(p.final_dir@), key.spec_bytes())
            &&& proper_path(views(p.final_dir@))
            &&& views(p.final_file@) == views(p.final_dir@).push(file_name())
            &&& views(p.temp_dir@) == seq![staging_name()] + views(p.final_dir@)
            &&& views(p.temp_file@) == views(p.temp_dir@).push(file_name())
        },
{
    if byte_len(key) > MAX_FILE_NAME || value_len > MAX_FILE_CONTENT {
        return Err("Too long name or too long content.".to_owned());
    }
    let my_key = transform_key(key);
    let final_dir = key_to_path(my_key.as_str());
    proof {
        lemma_storable(views(final_dir@), key.spec_bytes());
        if !key@.contains('/') {
            law_keys_without_slash_are_storable(key@);
        }
    }
    if !all_proper(&final_dir) {
        return Err("Key cannot be kept in files.".to_owned());
    }
    let final_file = with_last(&final_dir, "file");
    let mut temp_dir: Vec<String> = Vec::new();
    temp_dir.push(staging_dir());
    let mut i: usize = 0;
    while i < final_dir.len()
        invariant
            i <= final_dir@.len(),
            views(temp_dir@) == seq![staging_name()] + views(final_dir@.subrange(0, i as int)),
        decreases final_dir@.len() - i,
    {
        let ghost before = views(temp_dir@);
        temp_dir.push(final_dir[i].clone());
        proof {
            assert(views(temp_dir@) =~= before.push(final_dir@[i as int]@));
            assert(views(final_dir@.subrange(0, i + 1)) =~= views(final_dir@.subrange(0, i as int)).push(final_dir@[i as int]@));
        }
        i = i + 1;
    }
    proof {
        assert(final_dir@.subrange(0, i as int) =~= final_dir@);
    }
    let temp_file = with_last(&temp_dir, "file");
    Ok(PutPlan { temp_dir, temp_file, final_dir, final_file })
}

/// The file that holds the value of `key`, as components under the root of
/// the storage; `None` where the key has more than `MAX_FILE_NAME` bytes or
/// cannot be kept in files.
pub fn plan_get(key: &str) -> (r: Option<Vec<String>>)
    requires
        key.spec_bytes().len() <= MAX_FILE_NAME ==> is_char_boundary(
            key.spec_bytes(),
            cut_point(key.spec_bytes().len()),
        ),
    ensures
        r is None <==> key.spec_bytes().len() > MAX_FILE_NAME || !storable_key(key.spec_bytes()),
        key.spec_bytes().len() <= MAX_FILE_NAME && !key@.contains('/') ==> r is Some,
        r matches Some(p) ==> {
            &&& views(p@).len() >= 1
            &&& views(p@).last() == file_name()
            &&& key_dir(views(p@).drop_last(), key.spec_bytes())
            &&& proper_path(views(p@).drop_last())
        },
{
    if byte_len(key) > MAX_FILE_NAME {
        return None;
    }
    let my_key = transform_key(key);
    let dir = key_to_path(my_key.as_str());
    proof {
        lemma_storable(views(dir@), key.spec_bytes());
        if !key@.contains('/') {
            law_keys_without_slash_are_storable(key@);
        }
    }
    if !all_proper(&dir) {
        return None;
    }
    let file = with_last(&dir, "file");
    proof {
        assert(views(file@).drop_last() =~= views(dir@));
    }
    Some(file)
}

/// Distinct keys that can be kept in files get distinct files: their
/// directories are distinct sequences of proper components, which a file
/// system resolves to distinct directories, and the value file of neither
/// stands on the way to the directory of the other.
pub proof fn law_distinct_keys_distinct_files(
    k1: Seq<u8>,
    k2: Seq<u8>,
    cs1: Seq<Seq<char>>,
    cs2: Seq<Seq<char>>,
)
    requires
        valid_utf8(k1),
        valid_utf8(k2),
        is_char_boundary(k1, cut_point(k1.len())),
        is_char_boundary(k2, cut_point(k2.len())),
        storable_key(k1),
        storable_key(k2),
        key_dir(cs1, k1),
        key_dir(cs2, k2),
        k1 != k2,
    ensures
        cs1 != cs2,
        proper_path(cs1),
        proper_path(cs2),
        !cs1.push(file_name()).is_prefix_of(cs2),
        !cs2.push(file_name()).is_prefix_of(cs1),
{
    if cs1 == cs2 {
        lemma_transform_key_injective(k1, k2);
    }
    assert(proper_path(cs1));
    assert(proper_path(cs2));
    if cs1.push(file_name()).is_prefix_of(cs2) {
        assert(cs2[cs1.len() as int] == cs1.push(file_name())[cs1.len() as int]);
        assert(proper_component(cs2[cs1.len() as int]));
    }
    if cs2.push(file_name()).is_prefix_of(cs1) {
        assert(cs1[cs2.len() as int] == cs2.push(file_name())[cs2.len() as int]);
        assert(proper_component(cs1[cs2.len() as int]));
    }
}

/// The first component of a path is where its text opens.
proof fn lemma_join_path_prefix(cs: Seq<Seq<char>>)
    requires
        cs.len() >= 1,
    ensures
        join_path(cs).len() >= cs[0].len(),
        join_path(cs).subrange(0, cs[0].len() as int) == cs[0],
    decreases cs.len(),
{
    if cs.len() > 1 {
        let init = cs.drop_last();
        lemma_join_path_prefix(init);
        assert(init[0] == cs[0]);
        let j = join_path(init);
        assert(join_path(cs).subrange(0, cs[0].len() as int) =~= j.subrange(0, cs[0].len() as int));
    }
}

/// No key is kept under the staging directory: the directory of every key
/// opens with a component that starts with `!`, which the staging
/// directory's name does not, so that a value being written never stands
/// where a stored one is read.
pub proof fn law_keys_outside_staging(cs: Seq<Seq<char>>, kb: Seq<u8>)
    requires
        key_dir(cs, kb),
    ensures
        cs[0] != staging_name(),
{
    lemma_join_path_prefix(cs);
    reveal_strlit("not_yet_inserted");
    let t = transformed(kb);
    assert(t[0] == '!');
    if cs[0].len() == 0 {
        if cs.len() > 1 {
            lemma_join_path_first_slash(cs);
        } else {
            assert(join_path(cs) == cs[0]);
        }
    } else {
        assert(join_path(cs)[0] == cs[0][0]);
        assert(staging_name()[0] == 'n');
    }
}

/// Where the first component is empty and others follow, the path opens
/// with `/`.
proof fn lemma_join_path_first_slash(cs: Seq<Seq<char>>)
    requires
        cs.len() > 1,
        cs[0].len() == 0,
    ensures
        join_path(cs).len() > 0,
        join_path(cs)[0] == '/',
    decreases cs.len(),
{
    let init = cs.drop_last();
    assert(init[0] == cs[0]);
    if init.len() > 1 {
        lemma_join_path_first_slash(init);
    } else {
        assert(join_path(init) == init[0]);
        assert(join_path(init).len() == 0);
    }
}

} // verus!
