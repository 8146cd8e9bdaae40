//! The names of stored chunks, `file(i-of-n)`, and finding a file's chunks.

use vstd::prelude::*;
use vstd::string::*;
use crate::text::{
    all_digits, chars_of, decimal, decimal_string, first_from, find_from, has_prefix, is_digit,
    last_index_of, lemma_decimal_digits, lemma_first_from_at, lemma_first_from_none,
    lemma_last_index_of, lemma_parse_decimal, occurs_at, parse_decimal, parse_decimal_range,
    rfind_char, slice_chars,
};

verus! {

/// The separator between a chunk's index and the number of chunks.
pub open spec fn of_separator() -> Seq<char> {
    seq!['-', 'o', 'f', '-']
}

/// The name under which chunk `i` of `n` of the file `file` is stored and sent:
/// `file(i-of-n)`.
pub open spec fn chunk_name_spec(file: Seq<char>, i: nat, n: nat) -> Seq<char> {
    file + seq!['('] + decimal(i) + of_separator() + decimal(n) + seq![')']
}

/// The names on which reading a chunk name is defined: where the name holds
/// a `(`, something follows the last one, and the last character is ASCII.
pub open spec fn chunk_name_readable(name: Seq<char>) -> bool {
    match last_index_of(name, '(') {
        None => true,
        Some(idx) => idx + 1 < name.len() && (name.last() as u32) < 128,
    }
}

/// What reading `name` as `file(i-of-n)` gives: the text before the last `(`,
/// and the two numbers around the one `-of-` between that `(` and the last
/// character.
pub open spec fn parse_chunk_name_spec(name: Seq<char>) -> Option<(Seq<char>, nat, nat)> {
    match last_index_of(name, '(') {
        None => None,
        Some(idx) => {
            let meta = name.subrange(idx + 1, name.len() - 1);
            match first_from(meta, of_separator(), 0) {
                None => None,
                Some(p) => {
                    if first_from(meta, of_separator(), p + 4) is Some {
                        None
                    } else {
                        match (
                            parse_decimal(meta.take(p)),
                            parse_decimal(meta.skip(p + 4)),
                        ) {
                            (Some(i), Some(n)) => Some((name.take(idx), i, n)),
                            _ => None,
                        }
                    }
                }
            }
        }
    }
}

fn separator() -> (v: Vec<char>)
    ensures
        v@ == of_separator(),
{
    proof {
        reveal_strlit("-of-");
    }
    let v = chars_of("-of-");
    assert(v@ =~= of_separator());
    v
}

/// The name of chunk `i` of `n` of the file `file_name`: `file_name(i-of-n)`.
pub fn chunk_file_name(file_name: &str, i: usize, n: usize) -> (res: String)
    ensures
        res@ == chunk_name_spec(file_name@, i as nat, n as nat),
{
    proof {
        reveal_strlit("(");
        reveal_strlit("-of-");
        reveal_strlit(")");
        assert("("@ =~= seq!['(']);
        assert("-of-"@ =~= of_separator());
        assert(")"@ =~= seq![')']);
    }
    let mut s = String::from_str(file_name);
    s.append("(");
    let di = decimal_string(i);
    s.append(di.as_str());
    s.append("-of-");
    let dn = decimal_string(n);
    s.append(dn.as_str());
    s.append(")");
    s
}

/// Reads a chunk's name `file(i-of-n)` back into the file's name, `i` and `n`.
pub fn parse_chunk_filename(name: &str) -> (res: Option<(String, usize, usize)>)
    requires
        chunk_name_readable(name@),
    ensures
        match res {
            Some((file, i, n)) => parse_chunk_name_spec(name@) == Some((file@, i as nat, n as nat)),
            None => parse_chunk_name_spec(name@) is None,
        },
{
    let v = chars_of(name);
    let idx = match rfind_char(&v, '(') {
        Some(k) => k,
        None => return None,
    };
    let meta = slice_chars(&v, idx + 1, v.len() - 1);
    let sep = separator();
    let p = match find_from(&meta, &sep, 0) {
        Some(p) => p,
        None => return None,
    };
    if find_from(&meta, &sep, p + 4).is_some() {
        return None;
    }
    let i = match parse_decimal_range(&meta, 0, p) {
        Some(i) => i,
        None => {
            proof {
                assert(meta@.subrange(0, p as int) =~= meta@.take(p as int));
            }
            return None;
        }
    };
    let n = match parse_decimal_range(&meta, p + 4, meta.len()) {
        Some(n) => n,
        None => {
            proof {
                assert(meta@.subrange(p + 4, meta@.len() as int) =~= meta@.skip(p + 4));
            }
            return None;
        }
    };
    proof {
        assert(meta@.subrange(0, p as int) =~= meta@.take(p as int));
        assert(meta@.subrange(p + 4, meta@.len() as int) =~= meta@.skip(p + 4));
    }
    let file = String::from_str(name.substring_char(0, idx));
    proof {
        assert(name@.subrange(0, idx as int) =~= name@.take(idx as int));
    }
    Some((file, i, n))
}


/// The tail `di + "-of-" + dn` of a chunk's name, when both are runs of
/// digits, holds one separator, right after `di`.
proof fn lemma_meta_shape(di: Seq<char>, dn: Seq<char>)
    requires
        all_digits(di),
        all_digits(dn),
    ensures
        first_from(di + of_separator() + dn, of_separator(), 0) == Some(di.len() as int),
        first_from(di + of_separator() + dn, of_separator(), di.len() + 4 as int) is None,
        (di + of_separator() + dn).take(di.len() as int) == di,
        (di + of_separator() + dn).skip(di.len() + 4 as int) == dn,
{
    let sep = of_separator();
    let meta = di + sep + dn;
    let p = di.len() as int;
    assert(meta.subrange(p, p + 4) =~= sep);
    assert forall|j: int| 0 <= j < p implies !occurs_at(meta, sep, j) by {
        assert(meta[j] == di[j]);
        assert(is_digit(di[j]));
        if occurs_at(meta, sep, j) {
            assert(meta.subrange(j, j + 4)[0] == meta[j]);
        }
    }
    lemma_first_from_at(meta, sep, 0, p);
    assert forall|j: int| p + 4 <= j < meta.len() implies meta[j] != sep[0] by {
        assert(meta[j] == dn[j - p - 4]);
        assert(is_digit(dn[j - p - 4]));
    }
    lemma_first_from_none(meta, sep, p + 4);
    assert(meta.take(p) =~= di);
    assert(meta.skip(p + 4) =~= dn);
}

/// No `(` stands in `di + "-of-" + dn + ")"`, where both are runs of digits.
proof fn lemma_tail_has_no_paren(di: Seq<char>, dn: Seq<char>)
    requires
        all_digits(di),
        all_digits(dn),
    ensures
        forall|j: int|
            0 <= j < (di + of_separator() + dn + seq![')']).len() ==> (di + of_separator() + dn
                + seq![')'])[j] != '(',
{
    let sep = of_separator();
    let tail = di + sep + dn + seq![')'];
    assert forall|j: int| 0 <= j < tail.len() implies tail[j] != '(' by {
        if j < di.len() {
            assert(tail[j] == di[j]);
            assert(is_digit(di[j]));
        } else if j < di.len() + 4 {
            assert(tail[j] == sep[j - di.len()]);
        } else if j < di.len() + 4 + dn.len() {
            assert(tail[j] == dn[j - di.len() - 4]);
            assert(is_digit(dn[j - di.len() - 4]));
        }
    }
}

/// A chunk's name reads back as the file's name, the chunk's index and the
/// number of chunks it was made from, whatever they are.
pub proof fn chunk_name_round_trip(file: Seq<char>, i: usize, n: usize)
    ensures
        chunk_name_readable(chunk_name_spec(file, i as nat, n as nat)),
        parse_chunk_name_spec(chunk_name_spec(file, i as nat, n as nat)) == Some(
            (file, i as nat, n as nat),
        ),
{
    let di = decimal(i as nat);
    let dn = decimal(n as nat);
    let full = chunk_name_spec(file, i as nat, n as nat);
    let idx = file.len() as int;
    lemma_decimal_digits(i as nat);
    lemma_decimal_digits(n as nat);
    let meta = di + of_separator() + dn;
    let tail = meta + seq![')'];
    lemma_tail_has_no_paren(di, dn);
    assert(full =~= file + seq!['('] + tail);
    assert(full[idx] == '(');
    assert forall|j: int| idx < j < full.len() implies full[j] != '(' by {
        assert(full[j] == tail[j - idx - 1]);
    }
    lemma_last_index_of(full, '(', idx);
    assert(full.subrange(idx + 1, full.len() - 1) =~= meta);
    lemma_meta_shape(di, dn);
    lemma_parse_decimal(i);
    lemma_parse_decimal(n);
    assert(full.take(idx) =~= file);
}


/// The views of a list of strings.
pub open spec fn views_of(v: Seq<String>) -> Seq<Seq<char>> {
    v.map_values(|s: String| s@)
}

/// `name` is the name of a stored chunk of the file `file`: it reads as a
/// chunk's name whose file is `file`.
pub open spec fn is_chunk_of(name: Seq<char>, file: Seq<char>) -> bool {
    &&& file.is_prefix_of(name)
    &&& parse_chunk_name_spec(name) is Some
    &&& parse_chunk_name_spec(name).unwrap().0 == file
}

/// The index that a chunk's name carries.
pub open spec fn chunk_index_of(name: Seq<char>) -> nat {
    parse_chunk_name_spec(name).unwrap().1
}

/// The number of chunks that a chunk's name carries.
pub open spec fn chunk_count_of(name: Seq<char>) -> nat {
    parse_chunk_name_spec(name).unwrap().2
}

/// The names among `names` that are chunks of `file`, in their order.
pub open spec fn chunks_among(names: Seq<Seq<char>>, file: Seq<char>) -> Seq<Seq<char>>
    decreases names.len(),
{
    if names.len() == 0 {
        Seq::empty()
    } else if is_chunk_of(names.last(), file) {
        chunks_among(names.drop_last(), file).push(names.last())
    } else {
        chunks_among(names.drop_last(), file)
    }
}

/// The largest number of chunks that any of `names` carries (0 for none).
pub open spec fn max_chunk_count(names: Seq<Seq<char>>) -> nat
    decreases names.len(),
{
    if names.len() == 0 {
        0
    } else {
        let m = max_chunk_count(names.drop_last());
        let c = chunk_count_of(names.last());
        if c > m {
            c
        } else {
            m
        }
    }
}

/// `names` with `x` put after every name whose index is at most that of
/// `x`, where `names` is in order of index.
pub open spec fn insert_by_index(names: Seq<Seq<char>>, x: Seq<char>) -> Seq<Seq<char>>
    decreases names.len(),
{
    if names.len() == 0 {
        seq![x]
    } else if chunk_index_of(names.last()) > chunk_index_of(x) {
        insert_by_index(names.drop_last(), x).push(names.last())
    } else {
        names.push(x)
    }
}

/// `names` in order of the chunk indices they carry, names with the same
/// index keeping their order.
pub open spec fn sort_by_index(names: Seq<Seq<char>>) -> Seq<Seq<char>>
    decreases names.len(),
{
    if names.len() == 0 {
        Seq::empty()
    } else {
        insert_by_index(sort_by_index(names.drop_last()), names.last())
    }
}

proof fn lemma_insert_by_index_at(names: Seq<Seq<char>>, x: Seq<char>, pos: int)
    requires
        0 <= pos <= names.len(),
        forall|a: int| pos <= a < names.len() ==> chunk_index_of(#[trigger] names[a]) > chunk_index_of(x),
        pos == 0 || chunk_index_of(names[pos - 1]) <= chunk_index_of(x),
    ensures
        insert_by_index(names, x) == names.insert(pos, x),
    decreases names.len(),
{
    if names.len() == 0 {
        assert(names.insert(pos, x) =~= seq![x]);
    } else if pos == names.len() {
        assert(names.insert(pos, x) =~= names.push(x));
    } else {
        let t = names.drop_last();
        assert forall|a: int| pos <= a < t.len() implies chunk_index_of(#[trigger] t[a]) > chunk_index_of(x) by {
            assert(t[a] == names[a]);
        }
        if pos > 0 {
            assert(t[pos - 1] == names[pos - 1]);
        }
        lemma_insert_by_index_at(t, x, pos);
        assert(t.insert(pos, x).push(names.last()) =~= names.insert(pos, x));
    }
}

/// The names are in order of the chunk indices they carry.
pub open spec fn sorted_by_chunk_index(names: Seq<Seq<char>>) -> bool {
    forall|a: int, b: int|
        0 <= a < b < names.len() ==> chunk_index_of(names[a]) <= chunk_index_of(names[b])
}

/// Every entry that starts with `file` can be read as a chunk's name.
pub open spec fn entries_readable(entries: Seq<Seq<char>>, file: Seq<char>) -> bool {
    forall|k: int|
        0 <= k < entries.len() && file.is_prefix_of(#[trigger] entries[k])
            ==> chunk_name_readable(entries[k])
}

/// Of the entries of a directory, the chunks stored for the file `file_name`:
/// `None` where there is none, else the largest number of chunks that their
/// names carry and their names in order of chunk index.
pub fn find_chunks_for_file(entries: &Vec<String>, file_name: &str) -> (res: Option<
    (usize, Vec<String>),
>)
    requires
        entries_readable(views_of(entries@), file_name@),
    ensures
        match res {
            None => chunks_among(views_of(entries@), file_name@).len() == 0,
            Some((total, files)) => {
                &&& chunks_among(views_of(entries@), file_name@).len() > 0
                &&& views_of(files@).to_multiset() == chunks_among(
                    views_of(entries@),
                    file_name@,
                ).to_multiset()
                &&& sorted_by_chunk_index(views_of(files@))
                &&& views_of(files@) == sort_by_index(chunks_among(views_of(entries@), file_name@))
                &&& total as nat == max_chunk_count(chunks_among(views_of(entries@), file_name@))
            },
        },
{
    broadcast use vstd::seq_lib::group_to_multiset_ensures;

    let prefix = chars_of(file_name);
    let ghost all = views_of(entries@);
    let mut keys: Vec<usize> = Vec::new();
    let mut files: Vec<String> = Vec::new();
    let mut total: usize = 0;
    let mut k: usize = 0;
    while k < entries.len()
        invariant
            k <= entries.len(),
            all == views_of(entries@),
            prefix@ == file_name@,
            entries_readable(all, file_name@),
            keys.len() == files.len(),
            forall|a: int|
                0 <= a < files.len() ==> keys@[a] == chunk_index_of(#[trigger] views_of(files@)[a]),
            forall|a: int, b: int| 0 <= a < b < keys.len() ==> keys@[a] <= keys@[b],
            views_of(files@).to_multiset() == chunks_among(all.take(k as int), file_name@).to_multiset(),
            views_of(files@) == sort_by_index(chunks_among(all.take(k as int), file_name@)),
            total as nat == max_chunk_count(chunks_among(all.take(k as int), file_name@)),
        decreases entries.len() - k,
    {
        let ghost before = chunks_among(all.take(k as int), file_name@);
        assert(all.take(k + 1).drop_last() =~= all.take(k as int));
        assert(all.take(k + 1).last() == entries@[k as int]@);
        let name_chars = chars_of(entries[k].as_str());
        if has_prefix(&name_chars, &prefix) {
            assert(file_name@.is_prefix_of(all[k as int]));
            let parsed = parse_chunk_filename(entries[k].as_str());
            let own = match &parsed {
                Some((f, _, _)) => crate::text::same_text(f.as_str(), file_name),
                None => false,
            };
            match parsed {
                Some((_, i, n)) if own => {
                    let ghost name = entries@[k as int]@;
                    if n > total {
                        total = n;
                    }
                    let mut pos = keys.len();
                    while pos > 0 && keys[pos - 1] > i
                        invariant
                            pos <= keys.len(),
                            keys.len() == files.len(),
                            forall|a: int, b: int| 0 <= a < b < keys.len() ==> keys@[a] <= keys@[b],
                            forall|a: int| pos <= a < keys.len() ==> keys@[a] > i,
                        decreases pos,
                    {
                        pos = pos - 1;
                    }
                    let ghost old_files = views_of(files@);
                    let ghost old_keys = keys@;
                    keys.insert(pos, i);
                    files.insert(pos, entries[k].clone());
                    assert(views_of(files@) =~= old_files.insert(pos as int, name));
                    proof {
                        assert(forall|a: int| 0 <= a < old_files.len() ==> old_keys[a] == chunk_index_of(#[trigger] old_files[a]));
                        lemma_insert_by_index_at(old_files, name, pos as int);
                        assert(sort_by_index(before.push(name)) == insert_by_index(sort_by_index(before), name)) by {
                            assert(before.push(name).drop_last() =~= before);
                        }
                    }
                    assert forall|a: int|
                        0 <= a < files.len() implies keys@[a] == chunk_index_of(
                        #[trigger] views_of(files@)[a],
                    ) by {
                        if a < pos {
                            assert(views_of(files@)[a] == old_files[a]);
                        } else if a > pos {
                            assert(views_of(files@)[a] == old_files[a - 1]);
                        }
                    }
                    assert forall|a: int, b: int|
                        0 <= a < b < keys.len() implies keys@[a] <= keys@[b] by {
                        if b < pos {
                        } else if a < pos && b == pos {
                            if pos > 0 {
                                assert(old_keys[a] <= old_keys[pos - 1]);
                            }
                        } else if a < pos {
                            assert(keys@[b] == old_keys[b - 1]);
                        } else if a == pos {
                            assert(keys@[b] == old_keys[b - 1]);
                        } else {
                            assert(keys@[b] == old_keys[b - 1]);
                            assert(keys@[a] == old_keys[a - 1]);
                        }
                    }
                    assert(chunks_among(all.take(k + 1), file_name@) == before.push(name));
                    assert(before.push(name).drop_last() =~= before);
                    proof {
                        vstd::seq_lib::to_multiset_insert(old_files, pos as int, name);
                        vstd::seq_lib::to_multiset_build(before, name);
                    }
                    assert(views_of(files@).to_multiset() == before.push(name).to_multiset());
                }
                _ => {
                    assert(chunks_among(all.take(k + 1), file_name@) == before);
                }
            }
        } else {
            assert(chunks_among(all.take(k + 1), file_name@) == before);
        }
        k = k + 1;
    }
    assert(all.take(k as int) =~= all);
    if files.len() == 0 {
        proof {
            vstd::seq_lib::to_multiset_len(views_of(files@));
            vstd::seq_lib::to_multiset_len(chunks_among(all, file_name@));
        }
        None
    } else {
        proof {
            vstd::seq_lib::to_multiset_len(views_of(files@));
            vstd::seq_lib::to_multiset_len(chunks_among(all, file_name@));
            assert forall|a: int, b: int|
                0 <= a < b < views_of(files@).len() implies chunk_index_of(views_of(files@)[a])
                <= chunk_index_of(views_of(files@)[b]) by {
                assert(keys@[a] == chunk_index_of(views_of(files@)[a]));
                assert(keys@[b] == chunk_index_of(views_of(files@)[b]));
            }
        }
        Some((total, files))
    }
}


/// Whether `name` can be read as a chunk's name without fault (see
/// `chunk_name_readable`).
pub fn chunk_name_is_readable(name: &str) -> (res: bool)
    ensures
        res == chunk_name_readable(name@),
{
    let v = chars_of(name);
    match rfind_char(&v, '(') {
        None => true,
        Some(idx) => {
            assert(idx < v.len());
            idx < v.len() - 1 && (v[v.len() - 1] as u32) < 128
        },
    }
}

/// Whether every entry that starts with `file_name` can be read as a chunk's
/// name.
pub fn entries_are_readable(entries: &Vec<String>, file_name: &str) -> (res: bool)
    ensures
        res == entries_readable(views_of(entries@), file_name@),
{
    let prefix = chars_of(file_name);
    let mut k: usize = 0;
    while k < entries.len()
        invariant
            k <= entries.len(),
            prefix@ == file_name@,
            forall|j: int|
                0 <= j < k && file_name@.is_prefix_of(#[trigger] views_of(entries@)[j])
                    ==> chunk_name_readable(views_of(entries@)[j]),
        decreases entries.len() - k,
    {
        let name = chars_of(entries[k].as_str());
        if has_prefix(&name, &prefix) && !chunk_name_is_readable(entries[k].as_str()) {
            assert(views_of(entries@)[k as int] == entries@[k as int]@);
            return false;
        }
        k = k + 1;
    }
    true
}

} // verus!
