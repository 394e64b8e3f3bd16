//! Byte strings of any length kept in stable storage as numbered chunks.
//!
//! A schema named `name` is stored under the keys `name0`, `name1`, ...:
//! every chunk but the last holds `MAX_FILE_CONTENT` bytes, and the last
//! holds fewer (it is empty where the data fills the one before). It is
//! read back by concatenating the chunks from `name0` on up to the first
//! one shorter than `MAX_FILE_CONTENT`, or to a missing key, so that chunks
//! left by an earlier, longer store are never read.
use crate::codec::push_all;
use crate::stable_storage::StableStorage;
use vstd::prelude::*;

verus! {

/// The most bytes that one chunk holds.
pub const MAX_FILE_CONTENT: usize = 65536;

/// The decimal digit of `v`, for `v < 10`.
pub open spec fn decimal_digit(v: nat) -> char {
    (48 + v) as char
}

/// The decimal text of `n`, without leading zeros.
pub open spec fn decimal(n: nat) -> Seq<char>
    decreases n,
{
    if n < 10 {
        seq![decimal_digit(n)]
    } else {
        decimal(n / 10).push(decimal_digit(n % 10))
    }
}

/// The key of chunk `i` of the schema `name`.
pub open spec fn chunk_key(name: Seq<char>, i: nat) -> Seq<char> {
    name + decimal(i)
}

/// How `data` is cut into chunks: pieces of `MAX_FILE_CONTENT` bytes, then
/// one that holds what is left, fewer than `MAX_FILE_CONTENT` bytes (and
/// none where nothing is left).
pub open spec fn schema_chunks(data: Seq<u8>) -> Seq<Seq<u8>>
    decreases data.len(),
{
    if data.len() < MAX_FILE_CONTENT {
        seq![data]
    } else {
        seq![data.subrange(0, MAX_FILE_CONTENT as int)] + schema_chunks(
            data.subrange(MAX_FILE_CONTENT as int, data.len() as int),
        )
    }
}

/// The contents `m` after chunks `0 .. cs.len()` of the schema `name` are
/// put, in order.
pub open spec fn put_chunks(m: Map<Seq<char>, Seq<u8>>, name: Seq<char>, cs: Seq<Seq<u8>>) -> Map<
    Seq<char>,
    Seq<u8>,
>
    decreases cs.len(),
{
    if cs.len() == 0 {
        m
    } else {
        put_chunks(m, name, cs.drop_last()).insert(chunk_key(name, (cs.len() - 1) as nat), cs.last())
    }
}

/// What reading the schema `name` from chunk `i` on gives: the chunks
/// present from `i` on, up to the first one shorter than
/// `MAX_FILE_CONTENT` or the first missing key (or to the last number that
/// a `u64` counts).
pub open spec fn schema_read(m: Map<Seq<char>, Seq<u8>>, name: Seq<char>, i: nat) -> Seq<u8>
    decreases u64::MAX - i,
{
    if i >= u64::MAX || !m.contains_key(chunk_key(name, i)) {
        Seq::empty()
    } else if m[chunk_key(name, i)].len() < MAX_FILE_CONTENT {
        m[chunk_key(name, i)]
    } else {
        m[chunk_key(name, i)] + schema_read(m, name, i + 1)
    }
}

/// All the bytes of the chunks, in order.
pub open spec fn flatten_chunks(cs: Seq<Seq<u8>>) -> Seq<u8>
    decreases cs.len(),
{
    if cs.len() == 0 {
        Seq::empty()
    } else {
        cs[0] + flatten_chunks(cs.drop_first())
    }
}

/// A storage that takes the puts that `ok` holds of accepts every chunk of
/// `data` stored as the schema `name`.
pub open spec fn schema_accepted(ok: spec_fn(Seq<char>, Seq<u8>) -> bool, name: Seq<char>, data: Seq<u8>) -> bool {
    forall|i: int| 0 <= i < schema_chunks(data).len() ==> ok(chunk_key(name, i as nat), #[trigger] schema_chunks(data)[i])
}

/// The decimal digit `v`, for `v < 10`, as text.
fn digit_text(v: u64) -> (s: &'static str)
    requires
        v < 10,
    ensures
        s@ == seq![decimal_digit(v as nat)],
{
    match v {
        0 => {
            proof {
                reveal_strlit("0");
                assert("0"@ =~= seq![decimal_digit(0nat)]);
            }
            "0"
        },
        1 => {
            proof {
                reveal_strlit("1");
                assert("1"@ =~= seq![decimal_digit(1nat)]);
            }
            "1"
        },
        2 => {
            proof {
                reveal_strlit("2");
                assert("2"@ =~= seq![decimal_digit(2nat)]);
            }
            "2"
        },
        3 => {
            proof {
                reveal_strlit("3");
                assert("3"@ =~= seq![decimal_digit(3nat)]);
            }
            "3"
        },
        4 => {
            proof {
                reveal_strlit("4");
                assert("4"@ =~= seq![decimal_digit(4nat)]);
            }
            "4"
        },
        5 => {
            proof {
                reveal_strlit("5");
                assert("5"@ =~= seq![decimal_digit(5nat)]);
            }
            "5"
        },
        6 => {
            proof {
                reveal_strlit("6");
                assert("6"@ =~= seq![decimal_digit(6nat)]);
            }
            "6"
        },
        7 => {
            proof {
                reveal_strlit("7");
                assert("7"@ =~= seq![decimal_digit(7nat)]);
            }
            "7"
        },
        8 => {
            proof {
                reveal_strlit("8");
                assert("8"@ =~= seq![decimal_digit(8nat)]);
            }
            "8"
        },
        _ => {
            proof {
                reveal_strlit("9");
                assert("9"@ =~= seq![decimal_digit(9nat)]);
            }
            "9"
        },
    }
}

/// The decimal text of `n`, without leading zeros, as `n.to_string()`
/// writes it.
fn decimal_text(n: u64) -> (s: String)
    ensures
        s@ == decimal(n as nat),
    decreases n,
{
    let last = digit_text(n % 10);
    if n < 10 {
        last.to_owned()
    } else {
        let mut s = decimal_text(n / 10);
        s.append(last);
        s
    }
}

/// The name of chunk `iter` of the schema `name`.
fn chunk_name(name: &str, iter: u64) -> (s: String)
    ensures
        s@ == chunk_key(name@, iter as nat),
{
    let text = decimal_text(iter);
    name.to_owned().concat(text.as_str())
}

/// Stores `data` as the schema `name`: chunk by chunk, in order, stopping at
/// the first chunk that the storage refuses and handing its error back. It
/// succeeds exactly where the storage accepts every chunk.
pub fn store_schema<S: StableStorage>(storage: &mut S, data_in: Vec<u8>, name: &str) -> (r: Result<
    (),
    String,
>)
    ensures
        r is Ok <==> schema_accepted(old(storage).accepts(), name@, data_in@),
        final(storage).accepts() == old(storage).accepts(),
        r is Ok ==> final(storage).contents() == put_chunks(
            old(storage).contents(),
            name@,
            schema_chunks(data_in@),
        ),
        r is Err ==> exists|k: int|
            0 <= k < schema_chunks(data_in@).len() && final(storage).contents() == put_chunks(
                old(storage).contents(),
                name@,
                schema_chunks(data_in@).subrange(0, k),
            ),
{
    let ghost input = data_in@;
    let ghost all = schema_chunks(input);
    let ghost ok = storage.accepts();
    let total_len = data_in.len();
    let ghost total = total_len as nat;
    let mut data = data_in;
    let mut iter: u64 = 0;
    proof {
        assert(all =~= all.subrange(0, 0) + schema_chunks(data@));
    }
    while data.len() >= MAX_FILE_CONTENT
        invariant
            iter * MAX_FILE_CONTENT + data@.len() == total,
            all == schema_chunks(input),
            input == data_in@,
            forall|j: int| 0 <= j < iter ==> ok(chunk_key(name@, j as nat), #[trigger] all[j]),
            ok == old(storage).accepts(),
            storage.accepts() == ok,
            total <= usize::MAX,
            iter < all.len(),
            all == all.subrange(0, iter as int) + schema_chunks(data@),
            storage.contents() == put_chunks(
                old(storage).contents(),
                name@,
                all.subrange(0, iter as int),
            ),
        decreases data@.len(),
    {
        let ghost before = data@;
        let last_part = data.split_off(MAX_FILE_CONTENT);
        let chunk = chunk_name(name, iter);
        proof {
            assert(schema_chunks(before) == seq![data@] + schema_chunks(last_part@));
            assert(all[iter as int] == data@);
            let next = all.subrange(0, iter + 1);
            assert(next.drop_last() =~= all.subrange(0, iter as int));
            assert(all =~= next + schema_chunks(last_part@));
        }
        match storage.put(chunk.as_str(), data.as_slice()) {
            Ok(()) => {},
            Err(e) => {
                assert(all.subrange(0, iter as int) == schema_chunks(input).subrange(0, iter as int));
                assert(!ok(chunk_key(name@, iter as nat), all[iter as int]));
                assert(!schema_accepted(ok, name@, input)) by {
                    let i = iter as int;
                    assert(!ok(chunk_key(name@, i as nat), schema_chunks(input)[i]));
                }
                return Err(e);
            },
        }
        iter = iter + 1;
        data = last_part;
    }
    proof {
        assert(schema_chunks(data@) == seq![data@]);
        assert(all[iter as int] == data@);
        assert(all.subrange(0, iter + 1) =~= all);
        assert(all.subrange(0, iter + 1).drop_last() =~= all.subrange(0, iter as int));
    }
    let chunk = chunk_name(name, iter);
    let r = storage.put(chunk.as_str(), data.as_slice());
    proof {
        assert(ok(chunk_key(name@, iter as nat), all[iter as int]) == (r is Ok));
        assert(all.len() == iter + 1);
        if r is Ok {
            assert forall|i: int| 0 <= i < schema_chunks(input).len() implies ok(
                chunk_key(name@, i as nat),
                #[trigger] schema_chunks(input)[i],
            ) by {
                if i < iter {
                    assert(ok(chunk_key(name@, i as nat), all[i]));
                }
            }
        } else {
            let i = iter as int;
            assert(!ok(chunk_key(name@, i as nat), schema_chunks(input)[i]));
        }
        if r is Err {
            assert(all.subrange(0, iter as int) == schema_chunks(input).subrange(0, iter as int));
        }
    }
    r
}

/// Reads the schema `name` back: the chunks from `name0` on, concatenated,
/// up to the first one shorter than `MAX_FILE_CONTENT` or the first
/// missing key.
pub fn retrieve_schema<S: StableStorage>(storage: &S, name: &str) -> (r: Vec<u8>)
    ensures
        r@ == schema_read(storage.contents(), name@, 0),
{
    let ghost m = storage.contents();
    let mut iter: u64 = 0;
    let mut content: Vec<u8> = Vec::new();
    while iter < u64::MAX
        invariant
            m == storage.contents(),
            content@ + schema_read(m, name@, iter as nat) == schema_read(m, name@, 0),
        decreases u64::MAX - iter,
    {
        let key = chunk_name(name, iter);
        match storage.get(key.as_str()) {
            Some(some_bytes) => {
                let ghost before = content@;
                let short = some_bytes.len() < MAX_FILE_CONTENT;
                push_all(&mut content, some_bytes.as_slice());
                if short {
                    assert(content@ =~= before + schema_read(m, name@, iter as nat));
                    return content;
                }
                assert(content@ + schema_read(m, name@, (iter + 1) as nat) =~= before
                    + schema_read(m, name@, iter as nat));
            },
            None => {
                assert(content@ =~= content@ + schema_read(m, name@, iter as nat));
                return content;
            },
        }
        iter = iter + 1;
    }
    assert(content@ =~= content@ + schema_read(m, name@, iter as nat));
    content
}

/// A decimal text is never empty, and has two digits or more from ten on.
proof fn lemma_decimal_len(n: nat)
    ensures
        decimal(n).len() >= 1,
        n >= 10 ==> decimal(n).len() >= 2,
    decreases n,
{
    if n >= 10 {
        lemma_decimal_len(n / 10);
    }
}

/// Distinct numbers have distinct decimal texts.
pub proof fn lemma_decimal_injective(a: nat, b: nat)
    requires
        decimal(a) == decimal(b),
    ensures
        a == b,
    decreases a + b,
{
    lemma_decimal_len(a);
    lemma_decimal_len(b);
    let da = decimal(a);
    if a < 10 && b < 10 {
        assert(da[0] == decimal_digit(a));
        assert(decimal(b)[0] == decimal_digit(b));
    } else if a >= 10 && b >= 10 {
        assert(da.last() == decimal_digit(a % 10));
        assert(decimal(b).last() == decimal_digit(b % 10));
        assert(da.drop_last() =~= decimal(a / 10));
        assert(decimal(b).drop_last() =~= decimal(b / 10));
        lemma_decimal_injective(a / 10, b / 10);
    } else {
        assert(false);
    }
}

/// Distinct chunk numbers have distinct keys.
pub proof fn lemma_chunk_key_injective(name: Seq<char>, i: nat, j: nat)
    requires
        chunk_key(name, i) == chunk_key(name, j),
    ensures
        i == j,
{
    let ki = chunk_key(name, i);
    let kj = chunk_key(name, j);
    assert(ki.subrange(name.len() as int, ki.len() as int) =~= decimal(i));
    assert(kj.subrange(name.len() as int, kj.len() as int) =~= decimal(j));
    lemma_decimal_injective(i, j);
}

/// After chunks are put, each chunk's key holds it, and every other key
/// keeps what it held.
pub proof fn lemma_put_chunks(m: Map<Seq<char>, Seq<u8>>, name: Seq<char>, cs: Seq<Seq<u8>>)
    ensures
        forall|i: nat|
            i < cs.len() ==> #[trigger] put_chunks(m, name, cs).contains_key(chunk_key(name, i))
                && put_chunks(m, name, cs)[chunk_key(name, i)] == cs[i as int],
        forall|k: Seq<char>|
            (forall|i: nat| i < cs.len() ==> k != #[trigger] chunk_key(name, i)) ==> (
            #[trigger] put_chunks(m, name, cs).contains_key(k) == m.contains_key(k) && (
            m.contains_key(k) ==> put_chunks(m, name, cs)[k] == m[k])),
    decreases cs.len(),
{
    if cs.len() > 0 {
        let init = cs.drop_last();
        let last = (cs.len() - 1) as nat;
        lemma_put_chunks(m, name, init);
        let before = put_chunks(m, name, init);
        assert(put_chunks(m, name, cs) == before.insert(chunk_key(name, last), cs.last()));
        assert forall|i: nat| i < cs.len() implies #[trigger] put_chunks(
            m,
            name,
            cs,
        ).contains_key(chunk_key(name, i)) && put_chunks(m, name, cs)[chunk_key(name, i)]
            == cs[i as int] by {
            if i < last {
                if chunk_key(name, i) == chunk_key(name, last) {
                    lemma_chunk_key_injective(name, i, last);
                }
                assert(before.contains_key(chunk_key(name, i)));
                assert(init[i as int] == cs[i as int]);
            }
        }
        assert forall|k: Seq<char>|
            (forall|i: nat| i < cs.len() ==> k != #[trigger] chunk_key(name, i)) implies (
            #[trigger] put_chunks(m, name, cs).contains_key(k) == m.contains_key(k) && (
            m.contains_key(k) ==> put_chunks(m, name, cs)[k] == m[k])) by {
            assert(k != chunk_key(name, last));
            assert forall|i: nat| i < init.len() implies k != #[trigger] chunk_key(name, i) by {
                assert(i < cs.len());
            }
            assert(before.contains_key(k) == m.contains_key(k));
            assert(m.contains_key(k) ==> before[k] == m[k]);
        }
    }
}

/// Cutting into chunks loses and adds nothing, and makes no more chunks
/// than one per `MAX_FILE_CONTENT` bytes plus one.
proof fn lemma_schema_chunks(data: Seq<u8>)
    ensures
        flatten_chunks(schema_chunks(data)) == data,
        schema_chunks(data).len() <= data.len() / (MAX_FILE_CONTENT as nat) + 1,
    decreases data.len(),
{
    let cs = schema_chunks(data);
    if data.len() < MAX_FILE_CONTENT {
        assert(cs == seq![data]);
        assert(cs.drop_first() =~= Seq::<Seq<u8>>::empty());
        assert(flatten_chunks(cs.drop_first()) == Seq::<u8>::empty());
        assert(data + Seq::<u8>::empty() =~= data);
    } else {
        let rest = data.subrange(MAX_FILE_CONTENT as int, data.len() as int);
        lemma_schema_chunks(rest);
        assert(cs == seq![data.subrange(0, MAX_FILE_CONTENT as int)] + schema_chunks(rest));
        assert(cs.drop_first() =~= schema_chunks(rest));
        assert(cs[0] == data.subrange(0, MAX_FILE_CONTENT as int));
        assert(data.subrange(0, MAX_FILE_CONTENT as int) + rest =~= data);
    }
}

/// Every chunk but the last is full, and the last is not.
proof fn lemma_schema_chunks_sizes(data: Seq<u8>)
    ensures
        schema_chunks(data).len() >= 1,
        schema_chunks(data).last().len() < MAX_FILE_CONTENT,
        forall|j: int|
            0 <= j < schema_chunks(data).len() - 1 ==> (#[trigger] schema_chunks(data)[j]).len()
                == MAX_FILE_CONTENT,
    decreases data.len(),
{
    if data.len() >= MAX_FILE_CONTENT {
        let rest = data.subrange(MAX_FILE_CONTENT as int, data.len() as int);
        lemma_schema_chunks_sizes(rest);
        let cs = schema_chunks(data);
        let first = seq![data.subrange(0, MAX_FILE_CONTENT as int)];
        assert(cs == first + schema_chunks(rest));
        assert(cs.last() == schema_chunks(rest).last());
        assert forall|j: int| 0 <= j < cs.len() - 1 implies (#[trigger] cs[j]).len() == MAX_FILE_CONTENT by {
            if j > 0 {
                assert(cs[j] == schema_chunks(rest)[j - 1]);
            }
        }
    }
}

/// Reading from chunk `i` on, where chunks `i .. cs.len()` are present,
/// all full but the last, gives the bytes of those chunks.
proof fn lemma_schema_read(m: Map<Seq<char>, Seq<u8>>, name: Seq<char>, cs: Seq<Seq<u8>>, i: nat)
    requires
        i < cs.len(),
        cs.len() < u64::MAX,
        forall|j: nat|
            i <= j < cs.len() ==> #[trigger] m.contains_key(chunk_key(name, j)) && m[chunk_key(
                name,
                j,
            )] == cs[j as int],
        forall|j: int| 0 <= j < cs.len() - 1 ==> (#[trigger] cs[j]).len() == MAX_FILE_CONTENT,
        cs.last().len() < MAX_FILE_CONTENT,
    ensures
        schema_read(m, name, i) == flatten_chunks(cs.subrange(i as int, cs.len() as int)),
    decreases cs.len() - i,
{
    let rest = cs.subrange(i as int, cs.len() as int);
    assert(m.contains_key(chunk_key(name, i)));
    assert(rest[0] == cs[i as int]);
    if i == cs.len() - 1 {
        assert(rest.drop_first() =~= Seq::<Seq<u8>>::empty());
        assert(flatten_chunks(rest.drop_first()) == Seq::<u8>::empty());
        assert(cs[i as int] + Seq::<u8>::empty() =~= cs[i as int]);
    } else {
        assert(cs[i as int].len() == MAX_FILE_CONTENT);
        lemma_schema_read(m, name, cs, i + 1);
        assert(rest.drop_first() =~= cs.subrange(i + 1 as int, cs.len() as int));
    }
}

/// Reading a schema back after storing it gives what was stored, whatever
/// the storage held before.
pub proof fn law_schema_round_trip(m: Map<Seq<char>, Seq<u8>>, name: Seq<char>, data: Seq<u8>)
    requires
        data.len() <= u64::MAX,
    ensures
        schema_read(put_chunks(m, name, schema_chunks(data)), name, 0) == data,
{
    let cs = schema_chunks(data);
    lemma_schema_chunks(data);
    lemma_schema_chunks_sizes(data);
    lemma_put_chunks(m, name, cs);
    let written = put_chunks(m, name, cs);
    assert(cs.len() < u64::MAX) by (nonlinear_arith)
        requires
            cs.len() <= data.len() / 65536 + 1,
            data.len() <= u64::MAX,
    ;
    lemma_schema_read(written, name, cs, 0);
    assert(cs.subrange(0, cs.len() as int) =~= cs);
}

} // verus!
