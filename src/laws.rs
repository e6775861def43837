use vstd::prelude::*;
use vstd::string::StringSliceAdditionalSpecFns;
use vstd::utf8::encode_utf8;
use crate::bencode::{
    Bencode, MINUS, parse_items, TAG_LIST, all_digits, bytes_encoding, decimal, decode_spec, dict_get, digits_value,
    int_encoding, is_digit, key_position, parse_entries, parse_value, put_entry, scan_to, COLON,
    TAG_DICT, TAG_END, TAG_INT,
};
use crate::hash::sha1_of;
use crate::encode::{
    concat_all, encode_spec, entry_encodings, entry_keys, item_encodings, least_from, lex_lt,
    signed_decimal, sort_order, sort_order_from, lemma_lex_irreflexive, lemma_lex_transitive,
};
use crate::torrent::{
    FileModel, InfoModel, file_encoding, file_of, files_encoding, files_field, files_of, info_encoding,
    info_of, info_wf, path_encoding, path_of, size_of, text_of,
};

verus! {

/// Whether `s` holds `e` from position `i` on.
pub open spec fn holds_at(s: Seq<u8>, i: int, e: Seq<u8>) -> bool {
    0 <= i && i + e.len() <= s.len() && s.subrange(i, i + e.len()) == e
}

proof fn lemma_holds(pre: Seq<u8>, mid: Seq<u8>, post: Seq<u8>)
    ensures
        holds_at(pre + mid + post, pre.len() as int, mid),
{
    assert((pre + mid + post).subrange(pre.len() as int, pre.len() + mid.len() as int) =~= mid);
}

proof fn lemma_decimal(n: nat)
    ensures
        decimal(n).len() >= 1,
        all_digits(decimal(n)),
        digits_value(decimal(n)) == n,
    decreases n,
{
    if n >= 10 {
        lemma_decimal(n / 10);
        assert(decimal(n).drop_last() =~= decimal(n / 10));
        vstd::arithmetic::div_mod::lemma_fundamental_div_mod(n as int, 10);
        assert(decimal(n).last() == (48 + n % 10) as u8);
        assert((48 + n % 10) as u8 - 48 == n % 10);
        assert(digits_value(decimal(n)) == digits_value(decimal(n).drop_last()) * 10 + (
        decimal(n).last() - 48) as nat);
        assert(digits_value(decimal(n).drop_last()) == n / 10);
        assert forall|k: int| 0 <= k < decimal(n).len() implies is_digit(#[trigger] decimal(n)[k]) by {
            if k < decimal(n).len() - 1 {
                assert(decimal(n)[k] == decimal(n / 10)[k]);
            }
        }
    } else {
        assert(decimal(n).drop_last() =~= Seq::<u8>::empty());
        assert(decimal(n).last() == (48 + n) as u8);
        assert(digits_value(Seq::<u8>::empty()) == 0);
        assert(digits_value(decimal(n)) == digits_value(decimal(n).drop_last()) * 10 + (
        decimal(n).last() - 48) as nat);
    }
}

proof fn lemma_scan(s: Seq<u8>, i: int, j: int, b: u8)
    requires
        0 <= i <= j < s.len(),
        s[j] == b,
        forall|k: int| i <= k < j ==> s[k] != b,
    ensures
        scan_to(s, i, b) == j,
    decreases j - i,
{
    if i < j {
        lemma_scan(s, i + 1, j, b);
    }
}

proof fn lemma_parse_bytes(s: Seq<u8>, i: int, b: Seq<u8>)
    requires
        holds_at(s, i, bytes_encoding(b)),
    ensures
        parse_value(s, i) == Some((Bencode::Bytes(b), i + bytes_encoding(b).len())),
        is_digit(s[i]),
{
    lemma_decimal(b.len());
    let e = bytes_encoding(b);
    let d = decimal(b.len());
    let c = i + d.len();
    assert forall|k: int| i <= k < c implies s[k] != COLON by {
        assert(s[k] == e[k - i]);
        assert(e[k - i] == d[k - i]);
    }
    assert(s[c] == e[d.len() as int]);
    assert(s[i] == e[0]);
    assert(e[0] == d[0]);
    lemma_scan(s, i, c, COLON);
    assert forall|k: int| 0 <= k < d.len() implies s.subrange(i, c)[k] == d[k] by {
        assert(s[i + k] == e[k]);
    }
    assert(s.subrange(i, c) =~= d);
    assert forall|k: int| 0 <= k < b.len() implies s.subrange(c + 1, c + 1 + b.len())[k] == b[k] by {
        assert(s[c + 1 + k] == e[c + 1 + k - i]);
    }
    assert(s.subrange(c + 1, c + 1 + b.len()) =~= b);
}

proof fn lemma_parse_int(s: Seq<u8>, i: int, n: nat)
    requires
        holds_at(s, i, int_encoding(n)),
        n <= 9223372036854775807,
    ensures
        parse_value(s, i) == Some((Bencode::Int(n as int), i + int_encoding(n).len())),
{
    lemma_decimal(n);
    let e = int_encoding(n);
    let d = decimal(n);
    let t = i + 1 + d.len();
    assert forall|k: int| i + 1 <= k < t implies s[k] != TAG_END by {
        assert(s[k] == e[k - i]);
        assert(e[k - i] == d[k - i - 1]);
    }
    assert(s[t] == e[d.len() as int + 1]);
    assert(s[i] == e[0]);
    lemma_scan(s, i + 1, t, TAG_END);
    assert forall|k: int| 0 <= k < d.len() implies s.subrange(i + 1, t)[k] == d[k] by {
        assert(s[i + 1 + k] == e[k + 1]);
    }
    assert(s.subrange(i + 1, t) =~= d);
    assert(d[0] != 45u8);
}

/// A dictionary entry whose key is a byte string and whose value starts right after it.
proof fn lemma_entry(
    s: Seq<u8>,
    i: int,
    acc: Seq<(Seq<u8>, Bencode)>,
    k: Seq<u8>,
    v: Bencode,
    m: int,
)
    requires
        holds_at(s, i, bytes_encoding(k)),
        parse_value(s, i + bytes_encoding(k).len()) == Some((v, m)),
        i + bytes_encoding(k).len() < m <= s.len(),
        s[i + bytes_encoding(k).len()] != TAG_END,
    ensures
        parse_entries(s, i, acc) == parse_entries(s, m, put_entry(acc, k, v)),
{
    lemma_parse_bytes(s, i, k);
    lemma_decimal(k.len());
}

pub open spec fn key_length() -> Seq<u8> {
    "length".spec_bytes()
}

pub open spec fn key_name() -> Seq<u8> {
    "name".spec_bytes()
}

pub open spec fn key_piece_length() -> Seq<u8> {
    "piece length".spec_bytes()
}

pub open spec fn key_pieces() -> Seq<u8> {
    "pieces".spec_bytes()
}

pub open spec fn key_files() -> Seq<u8> {
    "files".spec_bytes()
}

pub open spec fn key_path() -> Seq<u8> {
    "path".spec_bytes()
}

proof fn lemma_keys()
    ensures
        key_length() == seq![108u8, 101, 110, 103, 116, 104],
        key_name() == seq![110u8, 97, 109, 101],
        key_piece_length() == seq![112u8, 105, 101, 99, 101, 32, 108, 101, 110, 103, 116, 104],
        key_pieces() == seq![112u8, 105, 101, 99, 101, 115],
        key_files() == seq![102u8, 105, 108, 101, 115],
        key_path() == seq![112u8, 97, 116, 104],
{
    reveal_strlit("path");
    vstd::utf8::is_ascii_chars_encode_utf8("path"@);
    assert(key_path() =~= seq![112u8, 97, 116, 104]);
    reveal_strlit("length");
    reveal_strlit("name");
    reveal_strlit("piece length");
    reveal_strlit("pieces");
    reveal_strlit("files");
    vstd::utf8::is_ascii_chars_encode_utf8("length"@);
    vstd::utf8::is_ascii_chars_encode_utf8("name"@);
    vstd::utf8::is_ascii_chars_encode_utf8("piece length"@);
    vstd::utf8::is_ascii_chars_encode_utf8("pieces"@);
    vstd::utf8::is_ascii_chars_encode_utf8("files"@);
    assert(key_length() =~= seq![108u8, 101, 110, 103, 116, 104]);
    assert(key_name() =~= seq![110u8, 97, 109, 101]);
    assert(key_piece_length() =~= seq![112u8, 105, 101, 99, 101, 32, 108, 101, 110, 103, 116, 104]);
    assert(key_pieces() =~= seq![112u8, 105, 101, 99, 101, 115]);
    assert(key_files() =~= seq![102u8, 105, 108, 101, 115]);
}

proof fn lemma_key_absent(es: Seq<(Seq<u8>, Bencode)>, k: Seq<u8>, j: int)
    requires
        0 <= j <= es.len(),
        forall|i: int| j <= i < es.len() ==> es[i].0 != k,
    ensures
        key_position(es, k, j) == es.len(),
    decreases es.len() - j,
{
    if j < es.len() {
        lemma_key_absent(es, k, j + 1);
    }
}

proof fn lemma_key_at(es: Seq<(Seq<u8>, Bencode)>, k: Seq<u8>, j: int, at: int)
    requires
        0 <= j <= at < es.len(),
        es[at].0 == k,
        forall|i: int| j <= i < at ==> es[i].0 != k,
    ensures
        key_position(es, k, j) == at,
    decreases at - j,
{
    if j < at {
        lemma_key_at(es, k, j + 1, at);
    }
}

proof fn lemma_put_new(es: Seq<(Seq<u8>, Bencode)>, k: Seq<u8>, v: Bencode)
    requires
        forall|i: int| 0 <= i < es.len() ==> es[i].0 != k,
    ensures
        put_entry(es, k, v) == es.push((k, v)),
{
    lemma_key_absent(es, k, 0);
}

proof fn lemma_bytes_entry(
    pre: Seq<u8>,
    k: Seq<u8>,
    b: Seq<u8>,
    post: Seq<u8>,
    acc: Seq<(Seq<u8>, Bencode)>,
)
    ensures
        ({
            let s = pre + (bytes_encoding(k) + bytes_encoding(b)) + post;
            parse_entries(s, pre.len() as int, acc) == parse_entries(
                s,
                pre.len() + bytes_encoding(k).len() + bytes_encoding(b).len() as int,
                put_entry(acc, k, Bencode::Bytes(b)),
            )
        }),
{
    let s = pre + (bytes_encoding(k) + bytes_encoding(b)) + post;
    lemma_holds(pre, bytes_encoding(k), bytes_encoding(b) + post);
    assert(s =~= pre + bytes_encoding(k) + (bytes_encoding(b) + post));
    lemma_holds(pre + bytes_encoding(k), bytes_encoding(b), post);
    assert(s =~= pre + bytes_encoding(k) + bytes_encoding(b) + post);
    let j: int = pre.len() + bytes_encoding(k).len() as int;
    lemma_parse_bytes(s, j, b);
    lemma_entry(s, pre.len() as int, acc, k, Bencode::Bytes(b), j + bytes_encoding(b).len() as int);
}

proof fn lemma_int_entry(
    pre: Seq<u8>,
    k: Seq<u8>,
    n: nat,
    post: Seq<u8>,
    acc: Seq<(Seq<u8>, Bencode)>,
)
    requires
        n <= 9223372036854775807,
    ensures
        ({
            let s = pre + (bytes_encoding(k) + int_encoding(n)) + post;
            parse_entries(s, pre.len() as int, acc) == parse_entries(
                s,
                pre.len() + bytes_encoding(k).len() + int_encoding(n).len() as int,
                put_entry(acc, k, Bencode::Int(n as int)),
            )
        }),
{
    let s = pre + (bytes_encoding(k) + int_encoding(n)) + post;
    lemma_holds(pre, bytes_encoding(k), int_encoding(n) + post);
    assert(s =~= pre + bytes_encoding(k) + (int_encoding(n) + post));
    lemma_holds(pre + bytes_encoding(k), int_encoding(n), post);
    assert(s =~= pre + bytes_encoding(k) + int_encoding(n) + post);
    let j: int = pre.len() + bytes_encoding(k).len() as int;
    lemma_parse_int(s, j, n);
    assert(s[j] == int_encoding(n)[0]);
    lemma_entry(s, pre.len() as int, acc, k, Bencode::Int(n as int), j + int_encoding(n).len() as int);
}

proof fn lemma_concat_prefix(encs: Seq<Seq<u8>>, k: int)
    requires
        0 <= k <= encs.len(),
    ensures
        concat_all(encs.take(k)).len() <= concat_all(encs).len(),
        concat_all(encs).subrange(0, concat_all(encs.take(k)).len() as int) == concat_all(
            encs.take(k),
        ),
    decreases encs.len(),
{
    if k == encs.len() {
        assert(encs.take(k) =~= encs);
        assert(concat_all(encs).subrange(0, concat_all(encs).len() as int) =~= concat_all(encs));
    } else {
        lemma_concat_prefix(encs.drop_last(), k);
        assert(encs.drop_last().take(k) =~= encs.take(k));
        let c = concat_all(encs.take(k));
        assert(concat_all(encs).subrange(0, c.len() as int) =~= concat_all(
            encs.drop_last(),
        ).subrange(0, c.len() as int));
    }
}

/// Each item parses from wherever its encoding stands, to its value, and does not start with `e`.
pub open spec fn items_parse(s: Seq<u8>, encs: Seq<Seq<u8>>, vals: Seq<Bencode>) -> bool {
    &&& encs.len() == vals.len()
    &&& forall|j: int, q: int|
        0 <= j < encs.len() && #[trigger] holds_at(s, q, encs[j]) ==> encs[j].len() > 0 && s[q]
            != TAG_END && parse_value(s, q) == Some((vals[j], q + encs[j].len()))
}

proof fn lemma_items(
    s: Seq<u8>,
    i: int,
    encs: Seq<Seq<u8>>,
    vals: Seq<Bencode>,
    acc: Seq<Bencode>,
    k: int,
)
    requires
        holds_at(s, i, concat_all(encs)),
        items_parse(s, encs, vals),
        0 <= k <= encs.len(),
    ensures
        parse_items(s, i, acc) == parse_items(
            s,
            i + concat_all(encs.take(k)).len(),
            acc + vals.take(k),
        ),
    decreases k,
{
    if k == 0 {
        assert(encs.take(0) =~= Seq::<Seq<u8>>::empty());
        assert(acc + vals.take(0) =~= acc);
    } else {
        lemma_items(s, i, encs, vals, acc, k - 1);
        let q = i + concat_all(encs.take(k - 1)).len();
        assert(encs.take(k).drop_last() =~= encs.take(k - 1));
        lemma_concat_prefix(encs, k);
        let c = concat_all(encs.take(k));
        assert(c == concat_all(encs.take(k - 1)) + encs[k - 1]);
        assert(holds_at(s, q, encs[k - 1])) by {
            assert(s.subrange(i, i + concat_all(encs).len()) == concat_all(encs));
            assert forall|x: int| 0 <= x < encs[k - 1].len() implies #[trigger] s.subrange(
                q,
                q + encs[k - 1].len(),
            )[x] == encs[k - 1][x] by {
                assert(s[q + x] == concat_all(encs)[q + x - i]);
                assert(concat_all(encs)[q + x - i] == c[q + x - i]);
            }
            assert(s.subrange(q, q + encs[k - 1].len()) =~= encs[k - 1]);
        }
        assert((acc + vals.take(k - 1)).push(vals[k - 1]) =~= acc + vals.take(k));
    }
}

/// A list whose items' encodings follow its `l`, closed by `e`.
proof fn lemma_list(s: Seq<u8>, i: int, encs: Seq<Seq<u8>>, vals: Seq<Bencode>)
    requires
        holds_at(s, i, seq![TAG_LIST] + concat_all(encs) + seq![TAG_END]),
        items_parse(s, encs, vals),
    ensures
        parse_value(s, i) == Some(
            (Bencode::List(vals), i + concat_all(encs).len() + 2),
        ),
{
    let whole = seq![TAG_LIST] + concat_all(encs) + seq![TAG_END];
    let n: int = concat_all(encs).len() as int;
    assert(s[i] == whole[0]);
    assert(holds_at(s, i + 1, concat_all(encs))) by {
        assert forall|x: int| 0 <= x < n implies #[trigger] s.subrange(i + 1, i + 1 + n)[x]
            == concat_all(encs)[x] by {
            assert(s[i + 1 + x] == whole[1 + x]);
        }
        assert(s.subrange(i + 1, i + 1 + n) =~= concat_all(encs));
    }
    assert(s[i + 1 + n] == whole[1 + n]);
    lemma_items(s, i + 1, encs, vals, Seq::empty(), encs.len() as int);
    assert(encs.take(encs.len() as int) =~= encs);
    assert(vals.take(vals.len() as int) =~= vals);
    assert(Seq::<Bencode>::empty() + vals =~= vals);
}

pub open spec fn path_encs(p: Seq<Seq<char>>) -> Seq<Seq<u8>> {
    Seq::new(p.len(), |j: int| bytes_encoding(encode_utf8(p[j])))
}

pub open spec fn path_vals(p: Seq<Seq<char>>) -> Seq<Bencode> {
    Seq::new(p.len(), |j: int| Bencode::Bytes(encode_utf8(p[j])))
}

proof fn lemma_path_encs(p: Seq<Seq<char>>)
    ensures
        path_encoding(p) == concat_all(path_encs(p)),
    decreases p.len(),
{
    if p.len() > 0 {
        lemma_path_encs(p.drop_last());
        assert(path_encs(p).drop_last() =~= path_encs(p.drop_last()));
    }
}

proof fn lemma_path_items(s: Seq<u8>, p: Seq<Seq<char>>)
    ensures
        items_parse(s, path_encs(p), path_vals(p)),
{
    assert forall|j: int, q: int|
        0 <= j < path_encs(p).len() && #[trigger] holds_at(s, q, path_encs(p)[j]) implies path_encs(
        p,
    )[j].len() > 0 && s[q] != TAG_END && parse_value(s, q) == Some(
        (path_vals(p)[j], q + path_encs(p)[j].len()),
    ) by {
        lemma_parse_bytes(s, q, encode_utf8(p[j]));
        lemma_decimal(encode_utf8(p[j]).len());
    }
}

proof fn lemma_holds_split(s: Seq<u8>, q: int, a: Seq<u8>, b: Seq<u8>, c: Seq<u8>)
    requires
        holds_at(s, q, a + b + c),
    ensures
        holds_at(s, q + a.len(), b),
{
    let w = a + b + c;
    assert forall|x: int| 0 <= x < b.len() implies #[trigger] s.subrange(
        q + a.len(),
        q + a.len() + b.len(),
    )[x] == b[x] by {
        assert(s.subrange(q, q + w.len()) == w);
        assert(s[q + a.len() + x] == w[a.len() + x]);
    }
    assert(s.subrange(q + a.len(), q + a.len() + b.len()) =~= b);
}

/// The entries of a file dictionary.
pub open spec fn file_entries(f: FileModel) -> Seq<(Seq<u8>, Bencode)> {
    seq![
        (key_length(), Bencode::Int(f.length as int)),
        (key_path(), Bencode::List(path_vals(f.path))),
    ]
}

#[verifier::rlimit(50)]
proof fn lemma_file_parses(s: Seq<u8>, q: int, f: FileModel)
    requires
        holds_at(s, q, file_encoding(f)),
        f.length <= 9223372036854775807,
    ensures
        parse_value(s, q) == Some((Bencode::Dict(file_entries(f)), q + file_encoding(f).len())),
        s[q] == TAG_DICT,
        file_encoding(f).len() > 0,
{
    lemma_keys();
    lemma_path_encs(f.path);
    let d = seq![TAG_DICT];
    let e = seq![TAG_END];
    let lk = bytes_encoding(key_length());
    let li = int_encoding(f.length);
    let pk = bytes_encoding(key_path());
    let pl = seq![TAG_LIST] + concat_all(path_encs(f.path)) + seq![TAG_END];
    let enc = file_encoding(f);
    assert(enc =~= d + lk + li + pk + pl + e);
    assert(s[q] == enc[0]);
    // The `length` entry.
    assert(enc =~= d + (lk + li) + (pk + pl + e));
    lemma_holds_split(s, q, d, lk + li, pk + pl + e);
    let pos1 = q + 1;
    assert(holds_at(s, pos1, lk)) by {
        assert(lk + li == lk + li + Seq::<u8>::empty());
        lemma_holds_split(s, pos1, Seq::empty(), lk, li);
        assert(Seq::<u8>::empty() + lk + li =~= lk + li);
    }
    assert(holds_at(s, pos1 + lk.len(), li)) by {
        assert(lk + li + Seq::<u8>::empty() =~= lk + li);
        lemma_holds_split(s, pos1, lk, li, Seq::empty());
    }
    lemma_parse_int(s, pos1 + lk.len(), f.length);
    assert(s[pos1 + lk.len()] == li[0]);
    let pos2 = pos1 + lk.len() + li.len();
    lemma_entry(s, pos1, Seq::empty(), key_length(), Bencode::Int(f.length as int), pos2);
    lemma_put_new(Seq::empty(), key_length(), Bencode::Int(f.length as int));
    let acc1 = seq![(key_length(), Bencode::Int(f.length as int))];
    assert(Seq::<(Seq<u8>, Bencode)>::empty().push((key_length(), Bencode::Int(f.length as int)))
        =~= acc1);
    // The `path` entry.
    assert(enc =~= (d + lk + li) + pk + (pl + e));
    lemma_holds_split(s, q, d + lk + li, pk, pl + e);
    assert(enc =~= (d + lk + li + pk) + pl + e);
    lemma_holds_split(s, q, d + lk + li + pk, pl, e);
    lemma_path_items(s, f.path);
    lemma_list(s, pos2 + pk.len(), path_encs(f.path), path_vals(f.path));
    assert(s[pos2 + pk.len()] == pl[0]);
    let pos3 = pos2 + pk.len() + pl.len();
    lemma_entry(s, pos2, acc1, key_path(), Bencode::List(path_vals(f.path)), pos3);
    lemma_put_new(acc1, key_path(), Bencode::List(path_vals(f.path)));
    assert(acc1.push((key_path(), Bencode::List(path_vals(f.path)))) =~= file_entries(f));
    assert(s[pos3] == enc[enc.len() - 1]);
}

pub open spec fn files_encs(fs: Seq<FileModel>) -> Seq<Seq<u8>> {
    Seq::new(fs.len(), |j: int| file_encoding(fs[j]))
}

pub open spec fn files_vals(fs: Seq<FileModel>) -> Seq<Bencode> {
    Seq::new(fs.len(), |j: int| Bencode::Dict(file_entries(fs[j])))
}

proof fn lemma_files_encs(fs: Seq<FileModel>)
    ensures
        files_encoding(fs) == concat_all(files_encs(fs)),
    decreases fs.len(),
{
    if fs.len() > 0 {
        lemma_files_encs(fs.drop_last());
        assert(files_encs(fs).drop_last() =~= files_encs(fs.drop_last()));
    }
}

proof fn lemma_files_items(s: Seq<u8>, fs: Seq<FileModel>)
    requires
        forall|j: int| 0 <= j < fs.len() ==> #[trigger] fs[j].length <= 9223372036854775807,
    ensures
        items_parse(s, files_encs(fs), files_vals(fs)),
{
    assert forall|j: int, q: int|
        0 <= j < files_encs(fs).len() && #[trigger] holds_at(s, q, files_encs(fs)[j]) implies files_encs(
        fs,
    )[j].len() > 0 && s[q] != TAG_END && parse_value(s, q) == Some(
        (files_vals(fs)[j], q + files_encs(fs)[j].len()),
    ) by {
        lemma_file_parses(s, q, fs[j]);
    }
}

proof fn lemma_path_reads_back(p: Seq<Seq<char>>)
    ensures
        path_of(path_vals(p)) == Some(p),
    decreases p.len(),
{
    if p.len() > 0 {
        lemma_path_reads_back(p.drop_last());
        assert(path_vals(p).drop_last() =~= path_vals(p.drop_last()));
        vstd::utf8::encode_utf8_valid_utf8(p.last());
        vstd::utf8::encode_utf8_decode_utf8(p.last());
        assert(p.drop_last().push(p.last()) =~= p);
    } else {
        assert(path_vals(p) =~= Seq::<Bencode>::empty());
        assert(p =~= Seq::<Seq<char>>::empty());
    }
}

proof fn lemma_file_reads_back(f: FileModel)
    requires
        f.length <= usize::MAX,
    ensures
        file_of(Bencode::Dict(file_entries(f))) == Some(f),
{
    lemma_keys();
    let es = file_entries(f);
    lemma_key_at(es, key_length(), 0, 0);
    lemma_key_at(es, key_path(), 0, 1);
    lemma_path_reads_back(f.path);
}

proof fn lemma_files_read_back(fs: Seq<FileModel>)
    requires
        forall|j: int| 0 <= j < fs.len() ==> #[trigger] fs[j].length <= usize::MAX,
    ensures
        files_of(files_vals(fs)) == Some(fs),
    decreases fs.len(),
{
    if fs.len() > 0 {
        lemma_files_read_back(fs.drop_last());
        assert(files_vals(fs).drop_last() =~= files_vals(fs.drop_last()));
        lemma_file_reads_back(fs.last());
        assert(fs.drop_last().push(fs.last()) =~= fs);
    } else {
        assert(files_vals(fs) =~= Seq::<Bencode>::empty());
        assert(fs =~= Seq::<FileModel>::empty());
    }
}

/// The entries of an `info` dictionary, in the order of its encoding.
pub open spec fn info_entries(m: InfoModel) -> Seq<(Seq<u8>, Bencode)> {
    let files: Seq<(Seq<u8>, Bencode)> = match m.files {
        Some(fs) => seq![(key_files(), Bencode::List(files_vals(fs)))],
        None => Seq::empty(),
    };
    let length: Seq<(Seq<u8>, Bencode)> = match m.length {
        Some(n) => seq![(key_length(), Bencode::Int(n as int))],
        None => Seq::empty(),
    };
    files + length + seq![
        (key_name(), Bencode::Bytes(encode_utf8(m.name))),
        (key_piece_length(), Bencode::Int(m.piece_length as int)),
        (key_pieces(), Bencode::Bytes(m.pieces)),
    ]
}

proof fn lemma_regroup(d: Seq<u8>, l: Seq<u8>, n: Seq<u8>, pl: Seq<u8>, p: Seq<u8>, e: Seq<u8>)
    ensures
        d + l + n + pl + p + e == d + (l) + (n + pl + p + e),
        d + l + n + pl + p + e == (d + l) + n + (pl + p + e),
        d + l + n + pl + p + e == (d + l + n) + pl + (p + e),
        d + l + n + pl + p + e == (d + l + n + pl) + p + e,
        d + l + n + pl + p + e == d + (l + n + (pl + p + e)),
{
    assert(d + l + n + pl + p + e =~= d + (l + n + (pl + p + e)));
    assert(d + l + n + pl + p + e =~= d + (l) + (n + pl + p + e));
    assert(d + l + n + pl + p + e =~= (d + l) + n + (pl + p + e));
    assert(d + l + n + pl + p + e =~= (d + l + n) + pl + (p + e));
}

/// The segments of an `info` encoding.
pub open spec fn files_part(m: InfoModel) -> Seq<u8> {
    match m.files {
        Some(fs) => bytes_encoding(key_files()) + (seq![TAG_LIST] + concat_all(files_encs(fs))
            + seq![TAG_END]),
        None => Seq::empty(),
    }
}

pub open spec fn length_part(m: InfoModel) -> Seq<u8> {
    match m.length {
        Some(n) => bytes_encoding(key_length()) + int_encoding(n),
        None => Seq::empty(),
    }
}

proof fn lemma_info_shape(m: InfoModel)
    ensures
        info_encoding(m) == (seq![TAG_DICT] + files_part(m)) + length_part(m) + (bytes_encoding(
            key_name(),
        ) + bytes_encoding(encode_utf8(m.name))) + (bytes_encoding(key_piece_length())
            + int_encoding(m.piece_length)) + (bytes_encoding(key_pieces()) + bytes_encoding(
            m.pieces,
        )) + seq![TAG_END],
{
    match m.files {
        Some(fs) => {
            lemma_files_encs(fs);
        },
        None => {},
    }
    assert(info_encoding(m) =~= (seq![TAG_DICT] + files_part(m)) + length_part(m) + (
    bytes_encoding(key_name()) + bytes_encoding(encode_utf8(m.name))) + (bytes_encoding(
        key_piece_length(),
    ) + int_encoding(m.piece_length)) + (bytes_encoding(key_pieces()) + bytes_encoding(
        m.pieces,
    )) + seq![TAG_END]);
}

/// The `files` entry, where there is one, comes first.
proof fn lemma_files_entry(m: InfoModel, s: Seq<u8>, rest: Seq<u8>)
    requires
        s == seq![TAG_DICT] + files_part(m) + rest,
        m.files matches Some(fs) ==> forall|j: int|
            0 <= j < fs.len() ==> #[trigger] fs[j].length <= 9223372036854775807,
        rest.len() > 0,
        rest[0] != TAG_END,
    ensures
        parse_entries(s, 1, Seq::empty()) == parse_entries(
            s,
            1 + files_part(m).len() as int,
            match m.files {
                Some(fs) => seq![(key_files(), Bencode::List(files_vals(fs)))],
                None => Seq::<(Seq<u8>, Bencode)>::empty(),
            },
        ),
{
    match m.files {
        Some(fs) => {
            lemma_keys();
            let d = seq![TAG_DICT];
            let fk = bytes_encoding(key_files());
            let fl = seq![TAG_LIST] + concat_all(files_encs(fs)) + seq![TAG_END];
            assert(s =~= d + fk + (fl + rest));
            lemma_holds(d, fk, fl + rest);
            assert(s =~= (d + fk) + fl + rest);
            lemma_holds(d + fk, fl, rest);
            lemma_files_items(s, fs);
            let at: int = 1 + fk.len() as int;
            lemma_list(s, at, files_encs(fs), files_vals(fs));
            assert(s[at] == fl[0]);
            lemma_entry(s, 1, Seq::empty(), key_files(), Bencode::List(files_vals(fs)), at + fl.len() as int);
            lemma_put_new(Seq::empty(), key_files(), Bencode::List(files_vals(fs)));
            assert(Seq::<(Seq<u8>, Bencode)>::empty().push((key_files(), Bencode::List(files_vals(fs))))
                =~= seq![(key_files(), Bencode::List(files_vals(fs)))]);
        },
        None => {},
    }
}

/// What an `info` dictionary's model asks for it to be read back whole: a `files` list, where
/// there is one, is not empty, and every integer fits both an `i64` and a `usize`.
pub open spec fn info_round_trips(m: InfoModel) -> bool {
    &&& info_wf(m)
    &&& m.length matches Some(n) ==> n <= 9223372036854775807 && n <= usize::MAX
    &&& m.files matches Some(fs) ==> fs.len() > 0 && forall|j: int|
        0 <= j < fs.len() ==> #[trigger] fs[j].length <= 9223372036854775807 && fs[j].length
            <= usize::MAX
}

/// The last three entries: `name`, `piece length`, `pieces`, then the closing `e`.
#[verifier::rlimit(100)]
proof fn lemma_info_tail(s: Seq<u8>, d: Seq<u8>, m: InfoModel, acc: Seq<(Seq<u8>, Bencode)>)
    requires
        m.piece_length <= u32::MAX,
        s == d + (bytes_encoding(key_name()) + bytes_encoding(encode_utf8(m.name))) + (
        bytes_encoding(key_piece_length()) + int_encoding(m.piece_length)) + (bytes_encoding(
            key_pieces(),
        ) + bytes_encoding(m.pieces)) + seq![TAG_END],
        forall|i: int|
            0 <= i < acc.len() ==> #[trigger] acc[i].0 != key_name() && acc[i].0
                != key_piece_length() && acc[i].0 != key_pieces(),
    ensures
        parse_entries(s, d.len() as int, acc) == Some(
            (
                acc + seq![
                    (key_name(), Bencode::Bytes(encode_utf8(m.name))),
                    (key_piece_length(), Bencode::Int(m.piece_length as int)),
                    (key_pieces(), Bencode::Bytes(m.pieces)),
                ],
                s.len() as int,
            ),
        ),
{
    lemma_keys();
    let e = seq![TAG_END];
    let name = encode_utf8(m.name);
    let npart = bytes_encoding(key_name()) + bytes_encoding(name);
    let plpart = bytes_encoding(key_piece_length()) + int_encoding(m.piece_length);
    let ppart = bytes_encoding(key_pieces()) + bytes_encoding(m.pieces);
    assert(s =~= d + npart + (plpart + ppart + e));
    lemma_bytes_entry(d, key_name(), name, plpart + ppart + e, acc);
    lemma_put_new(acc, key_name(), Bencode::Bytes(name));
    let acc2 = acc.push((key_name(), Bencode::Bytes(name)));
    assert(s =~= (d + npart) + plpart + (ppart + e));
    lemma_int_entry(d + npart, key_piece_length(), m.piece_length, ppart + e, acc2);
    lemma_put_new(acc2, key_piece_length(), Bencode::Int(m.piece_length as int));
    let acc3 = acc2.push((key_piece_length(), Bencode::Int(m.piece_length as int)));
    assert(s =~= (d + npart + plpart) + ppart + e);
    lemma_bytes_entry(d + npart + plpart, key_pieces(), m.pieces, e, acc3);
    lemma_put_new(acc3, key_pieces(), Bencode::Bytes(m.pieces));
    let acc4 = acc3.push((key_pieces(), Bencode::Bytes(m.pieces)));
    let pos4: int = (d + npart + plpart + ppart).len() as int;
    assert(s.len() == pos4 + 1);
    assert(s[pos4] == TAG_END);
    assert(parse_entries(s, pos4, acc4) == Some((acc4, pos4 + 1)));
    assert(acc4 =~= acc + seq![
        (key_name(), Bencode::Bytes(encode_utf8(m.name))),
        (key_piece_length(), Bencode::Int(m.piece_length as int)),
        (key_pieces(), Bencode::Bytes(m.pieces)),
    ]);
}

proof fn lemma_rest_starts(m: InfoModel, rest: Seq<u8>, tail: Seq<u8>)
    requires
        rest == length_part(m) + (bytes_encoding(key_name()) + bytes_encoding(encode_utf8(m.name)))
            + tail,
    ensures
        rest.len() > 0,
        rest[0] != TAG_END,
{
    lemma_keys();
    match m.length {
        Some(n) => {
            lemma_decimal(key_length().len());
            assert(rest[0] == bytes_encoding(key_length())[0]);
        },
        None => {
            lemma_decimal(key_name().len());
            assert(rest[0] == bytes_encoding(key_name())[0]);
        },
    }
}

/// The entries before `name`: `files` and `length`, where they are.
pub open spec fn head_entries(m: InfoModel) -> Seq<(Seq<u8>, Bencode)> {
    let files: Seq<(Seq<u8>, Bencode)> = match m.files {
        Some(fs) => seq![(key_files(), Bencode::List(files_vals(fs)))],
        None => Seq::empty(),
    };
    match m.length {
        Some(n) => files.push((key_length(), Bencode::Int(n as int))),
        None => files,
    }
}

proof fn lemma_info_head(m: InfoModel, s: Seq<u8>, post: Seq<u8>)
    requires
        info_round_trips(m),
        s == seq![TAG_DICT] + files_part(m) + length_part(m) + post,
        post.len() > 0,
        is_digit(post[0]),
    ensures
        parse_entries(s, 1, Seq::empty()) == parse_entries(
            s,
            1 + files_part(m).len() + length_part(m).len() as int,
            head_entries(m),
        ),
        forall|i: int|
            0 <= i < head_entries(m).len() ==> #[trigger] head_entries(m)[i].0 != key_name()
                && head_entries(m)[i].0 != key_piece_length() && head_entries(m)[i].0
                != key_pieces(),
{
    lemma_keys();
    let d = seq![TAG_DICT] + files_part(m);
    let rest = length_part(m) + post;
    assert(s =~= seq![TAG_DICT] + files_part(m) + rest);
    assert(rest[0] != TAG_END) by {
        match m.length {
            Some(n) => {
                lemma_decimal(key_length().len());
                assert(rest[0] == bytes_encoding(key_length())[0]);
            },
            None => {
                assert(rest[0] == post[0]);
            },
        }
    }
    lemma_files_entry(m, s, rest);
    let acc0 = match m.files {
        Some(fs) => seq![(key_files(), Bencode::List(files_vals(fs)))],
        None => Seq::<(Seq<u8>, Bencode)>::empty(),
    };
    match m.length {
        Some(n) => {
            lemma_int_entry(d, key_length(), n, post, acc0);
            lemma_put_new(acc0, key_length(), Bencode::Int(n as int));
        },
        None => {},
    }
}

proof fn lemma_info_parses(m: InfoModel)
    requires
        info_round_trips(m),
    ensures
        decode_spec(info_encoding(m)) == Some(Bencode::Dict(info_entries(m))),
{
    let s = info_encoding(m);
    let e = seq![TAG_END];
    let d = seq![TAG_DICT] + files_part(m);
    let lpart = length_part(m);
    let npart = bytes_encoding(key_name()) + bytes_encoding(encode_utf8(m.name));
    let plpart = bytes_encoding(key_piece_length()) + int_encoding(m.piece_length);
    let ppart = bytes_encoding(key_pieces()) + bytes_encoding(m.pieces);
    lemma_info_shape(m);
    lemma_regroup(d, lpart, npart, plpart, ppart, e);
    let post = npart + plpart + ppart + e;
    lemma_keys();
    lemma_decimal(key_name().len());
    assert(post[0] == bytes_encoding(key_name())[0]);
    lemma_info_head(m, s, post);
    lemma_info_tail(s, d + lpart, m, head_entries(m));
    assert(head_entries(m) + seq![
        (key_name(), Bencode::Bytes(encode_utf8(m.name))),
        (key_piece_length(), Bencode::Int(m.piece_length as int)),
        (key_pieces(), Bencode::Bytes(m.pieces)),
    ] =~= info_entries(m));
}

proof fn lemma_info_reads_back(m: InfoModel)
    requires
        info_round_trips(m),
    ensures
        info_of(Bencode::Dict(info_entries(m))) == Some(m),
{
    lemma_keys();
    let es = info_entries(m);
    let v = Bencode::Dict(es);
    let f: int = if m.files is Some {
        1
    } else {
        0
    };
    let base: int = if m.length is Some {
        f + 1
    } else {
        f
    };
    assert(es[base].0 == key_name());
    assert(es[base + 1].0 == key_piece_length());
    assert(es[base + 2].0 == key_pieces());
    lemma_key_at(es, key_name(), 0, base);
    lemma_key_at(es, key_piece_length(), 0, base + 1);
    lemma_key_at(es, key_pieces(), 0, base + 2);
    match m.files {
        Some(fs) => {
            lemma_key_at(es, key_files(), 0, 0);
            lemma_files_read_back(fs);
        },
        None => {
            lemma_key_absent(es, key_files(), 0);
        },
    }
    match m.length {
        Some(n) => {
            lemma_key_at(es, key_length(), 0, f);
        },
        None => {
            lemma_key_absent(es, key_length(), 0);
        },
    }
    vstd::utf8::encode_utf8_valid_utf8(m.name);
    vstd::utf8::encode_utf8_decode_utf8(m.name);
    assert(text_of(dict_get(v, key_name())) == Some(m.name));
    assert(size_of(dict_get(v, key_piece_length())) == Some(m.piece_length));
    assert(files_field(v) == Some(m.files));
    assert(size_of(dict_get(v, key_length())) == m.length);
}

/// Decoding what `TorrentInfo::bencode` writes gives the same `info` model back, so writing it
/// again yields the same bytes. It holds where every integer of the dictionary fits an `i64` and
/// a `usize` and a `files` list is not empty.
pub proof fn lemma_info_round_trip(m: InfoModel)
    requires
        info_round_trips(m),
    ensures
        decode_spec(info_encoding(m)) matches Some(v) && info_of(v) == Some(m),
        decode_spec(info_encoding(m)) matches Some(v) && info_of(v) matches Some(back)
            && sha1_of(info_encoding(back)) == sha1_of(info_encoding(m)),
{
    lemma_info_parses(m);
    lemma_info_reads_back(m);
}

/// A value whose bencoding reads back as itself: its integers fit an `i64` and the keys of
/// each dictionary strictly increase in byte-wise order.
pub open spec fn canonical(v: Bencode) -> bool
    decreases v,
{
    match v {
        Bencode::Int(n) => -9223372036854775808 <= n <= 9223372036854775807,
        Bencode::Bytes(_) => true,
        Bencode::List(xs) => forall|i: int| 0 <= i < xs.len() ==> canonical(#[trigger] xs[i]),
        Bencode::Dict(es) => {
            &&& forall|i: int, j: int| 0 <= i < j < es.len() ==> lex_lt(es[i].0, es[j].0)
            &&& forall|i: int| 0 <= i < es.len() ==> canonical(#[trigger] es[i].1)
        },
    }
}

proof fn lemma_parse_negative(s: Seq<u8>, q: int, m: nat)
    requires
        holds_at(s, q, seq![TAG_INT] + (seq![MINUS] + decimal(m)) + seq![TAG_END]),
        1 <= m <= 9223372036854775808,
    ensures
        parse_value(s, q) == Some(
            (Bencode::Int(-m), q + (seq![TAG_INT] + (seq![MINUS] + decimal(m)) + seq![TAG_END]).len()),
        ),
{
    lemma_decimal(m);
    let d = seq![MINUS] + decimal(m);
    let e = seq![TAG_INT] + d + seq![TAG_END];
    let t = q + 1 + d.len();
    assert forall|k: int| q + 1 <= k < t implies s[k] != TAG_END by {
        assert(s[k] == e[k - q]);
        assert(e[k - q] == d[k - q - 1]);
        if k > q + 1 {
            assert(d[k - q - 1] == decimal(m)[k - q - 2]);
        }
    }
    assert(s[t] == e[d.len() as int + 1]);
    assert(s[q] == e[0]);
    lemma_scan(s, q + 1, t, TAG_END);
    assert forall|k: int| 0 <= k < d.len() implies #[trigger] s.subrange(q + 1, t)[k] == d[k] by {
        assert(s[q + 1 + k] == e[k + 1]);
    }
    assert(s.subrange(q + 1, t) =~= d);
    assert(d.drop_first() =~= decimal(m));
}

/// `a, a + 1, ..., n - 1`.
pub open spec fn index_range(a: int, n: int) -> Seq<int> {
    Seq::new((n - a) as nat, |i: int| a + i)
}

proof fn lemma_least_first(keys: Seq<Seq<u8>>, rest: Seq<int>, j: int)
    requires
        1 <= j,
        rest.len() > 0,
        forall|x: int| j <= x < rest.len() ==> !lex_lt(#[trigger] keys[rest[x]], keys[rest[0]]),
    ensures
        least_from(keys, rest, j, 0) == 0,
    decreases rest.len() - j,
{
    if j < rest.len() {
        lemma_least_first(keys, rest, j + 1);
    }
}

proof fn lemma_sorted_order_from(keys: Seq<Seq<u8>>, a: int)
    requires
        0 <= a <= keys.len(),
        forall|i: int, j: int| 0 <= i < j < keys.len() ==> lex_lt(keys[i], keys[j]),
    ensures
        sort_order_from(keys, index_range(a, keys.len() as int)) == index_range(
            a,
            keys.len() as int,
        ),
    decreases keys.len() - a,
{
    let rest = index_range(a, keys.len() as int);
    if a < keys.len() {
        assert forall|x: int| 1 <= x < rest.len() implies !lex_lt(
            #[trigger] keys[rest[x]],
            keys[rest[0]],
        ) by {
            assert(lex_lt(keys[a], keys[a + x]));
            if lex_lt(keys[a + x], keys[a]) {
                lemma_lex_transitive(keys[a], keys[a + x], keys[a]);
                lemma_lex_irreflexive(keys[a]);
            }
        }
        lemma_least_first(keys, rest, 1);
        assert(rest.remove(0) =~= index_range(a + 1, keys.len() as int));
        lemma_sorted_order_from(keys, a + 1);
        assert(seq![rest[0]] + index_range(a + 1, keys.len() as int) =~= rest);
    } else {
        assert(rest =~= Seq::<int>::empty());
    }
}

proof fn lemma_sorted_entry_encodings(es: Seq<(Seq<u8>, Bencode)>)
    requires
        forall|i: int, j: int| 0 <= i < j < es.len() ==> lex_lt(es[i].0, es[j].0),
    ensures
        entry_encodings(es).len() == es.len(),
        forall|t: int|
            0 <= t < es.len() ==> #[trigger] entry_encodings(es)[t] == bytes_encoding(es[t].0)
                + encode_spec(es[t].1),
{
    let keys = entry_keys(es);
    assert forall|i: int, j: int| 0 <= i < j < keys.len() implies lex_lt(keys[i], keys[j]) by {
        assert(keys[i] == es[i].0);
        assert(keys[j] == es[j].0);
    }
    lemma_sorted_order_from(keys, 0);
    assert(Seq::new(keys.len(), |i: int| i) =~= index_range(0, keys.len() as int));
    assert(sort_order(keys) == index_range(0, keys.len() as int));
}

/// Every value of a sequence of entries parses from wherever its encoding stands.
pub open spec fn values_parse(s: Seq<u8>, es: Seq<(Seq<u8>, Bencode)>) -> bool {
    forall|t: int, q: int|
        0 <= t < es.len() && #[trigger] holds_at(s, q, encode_spec(es[t].1)) ==> encode_spec(
            es[t].1,
        ).len() > 0 && s[q] != TAG_END && parse_value(s, q) == Some(
            (es[t].1, q + encode_spec(es[t].1).len()),
        )
}

proof fn lemma_entries(
    s: Seq<u8>,
    i: int,
    es: Seq<(Seq<u8>, Bencode)>,
    encs: Seq<Seq<u8>>,
    k: int,
)
    requires
        holds_at(s, i, concat_all(encs)),
        encs.len() == es.len(),
        forall|t: int|
            0 <= t < es.len() ==> #[trigger] encs[t] == bytes_encoding(es[t].0) + encode_spec(
                es[t].1,
            ),
        forall|x: int, y: int| 0 <= x < y < es.len() ==> lex_lt(es[x].0, es[y].0),
        values_parse(s, es),
        0 <= k <= es.len(),
    ensures
        parse_entries(s, i, Seq::empty()) == parse_entries(
            s,
            i + concat_all(encs.take(k)).len(),
            es.take(k),
        ),
    decreases k,
{
    if k == 0 {
        assert(encs.take(0) =~= Seq::<Seq<u8>>::empty());
        assert(es.take(0) =~= Seq::<(Seq<u8>, Bencode)>::empty());
    } else {
        lemma_entries(s, i, es, encs, k - 1);
        let q = i + concat_all(encs.take(k - 1)).len();
        assert(encs.take(k).drop_last() =~= encs.take(k - 1));
        lemma_concat_prefix(encs, k);
        let c = concat_all(encs.take(k));
        assert(c == concat_all(encs.take(k - 1)) + encs[k - 1]);
        let key = es[k - 1].0;
        let val = es[k - 1].1;
        assert(holds_at(s, q, encs[k - 1])) by {
            assert(s.subrange(i, i + concat_all(encs).len()) == concat_all(encs));
            assert forall|x: int| 0 <= x < encs[k - 1].len() implies #[trigger] s.subrange(
                q,
                q + encs[k - 1].len(),
            )[x] == encs[k - 1][x] by {
                assert(s[q + x] == concat_all(encs)[q + x - i]);
                assert(concat_all(encs)[q + x - i] == c[q + x - i]);
            }
            assert(s.subrange(q, q + encs[k - 1].len()) =~= encs[k - 1]);
        }
        assert(bytes_encoding(key) + encode_spec(val) + Seq::<u8>::empty() =~= encs[k - 1]);
        lemma_holds_split(s, q, bytes_encoding(key), encode_spec(val), Seq::empty());
        assert(Seq::<u8>::empty() + bytes_encoding(key) + encode_spec(val) =~= encs[k - 1]);
        lemma_holds_split(s, q, Seq::empty(), bytes_encoding(key), encode_spec(val));
        let at = q + bytes_encoding(key).len();
        assert(holds_at(s, at, encode_spec(es[k - 1].1)));
        lemma_entry(s, q, es.take(k - 1), key, val, at + encode_spec(val).len());
        assert forall|x: int| 0 <= x < es.take(k - 1).len() implies #[trigger] es.take(k - 1)[x].0 != key by {
            assert(lex_lt(es[x].0, es[k - 1].0));
            lemma_lex_irreflexive(key);
        }
        lemma_put_new(es.take(k - 1), key, val);
        assert(es.take(k - 1).push((key, val)) =~= es.take(k));
    }
}

/// A canonical value's bencoding, wherever it stands in a byte string, decodes to that value
/// and ends where the encoding ends. So the infohash of a torrent, computed from its decoded
/// `info` dictionary, is the SHA-1 of the dictionary's bytes as they stand in the file, where
/// those bytes are canonical.
pub proof fn lemma_value_round_trip(v: Bencode, s: Seq<u8>, q: int)
    requires
        canonical(v),
        holds_at(s, q, encode_spec(v)),
    ensures
        parse_value(s, q) == Some((v, q + encode_spec(v).len())),
        encode_spec(v).len() > 0,
        s[q] != TAG_END,
        sha1_of(encode_spec(v)) == sha1_of(s.subrange(q, q + encode_spec(v).len())),
    decreases v,
{
    let e = encode_spec(v);
    assert(s[q] == e[0]);
    match v {
        Bencode::Int(n) => {
            if n >= 0 {
                assert(e =~= int_encoding(n as nat));
                lemma_parse_int(s, q, n as nat);
            } else {
                assert(e =~= seq![TAG_INT] + (seq![MINUS] + decimal((-n) as nat)) + seq![TAG_END]);
                lemma_parse_negative(s, q, (-n) as nat);
            }
        },
        Bencode::Bytes(b) => {
            lemma_parse_bytes(s, q, b);
            lemma_decimal(b.len());
        },
        Bencode::List(xs) => {
            let encs = item_encodings(xs);
            assert forall|j: int, r: int|
                0 <= j < encs.len() && #[trigger] holds_at(s, r, encs[j]) implies encs[j].len() > 0
                && s[r] != TAG_END && parse_value(s, r) == Some((xs[j], r + encs[j].len())) by {
                assert(encs[j] == encode_spec(xs[j]));
                vstd::seq::axiom_seq_index_decreases(xs, j);
                lemma_value_round_trip(xs[j], s, r);
            }
            assert(items_parse(s, encs, xs));
            lemma_list(s, q, encs, xs);
        },
        Bencode::Dict(es) => {
            lemma_sorted_entry_encodings(es);
            let encs = entry_encodings(es);
            assert forall|t: int, r: int|
                0 <= t < es.len() && #[trigger] holds_at(s, r, encode_spec(es[t].1)) implies encode_spec(
                es[t].1,
            ).len() > 0 && s[r] != TAG_END && parse_value(s, r) == Some(
                (es[t].1, r + encode_spec(es[t].1).len()),
            ) by {
                vstd::seq::axiom_seq_index_decreases(es, t);
                lemma_value_round_trip(es[t].1, s, r);
            }
            let body = concat_all(encs);
            assert(e =~= seq![TAG_DICT] + body + seq![TAG_END]);
            lemma_holds_split(s, q, seq![TAG_DICT], body, seq![TAG_END]);
            lemma_entries(s, q + 1, es, encs, es.len() as int);
            assert(encs.take(es.len() as int) =~= encs);
            assert(es.take(es.len() as int) =~= es);
            let end: int = q + 1 + body.len() as int;
            assert(s[end] == e[body.len() as int + 1]);
            assert(parse_entries(s, end, es) == Some((es, end + 1)));
        },
    }
    assert(s.subrange(q, q + e.len()) == e);
}

/// Decoding the bencoding of a canonical value gives that value back.
pub proof fn lemma_canonical_round_trip(v: Bencode)
    requires
        canonical(v),
    ensures
        decode_spec(encode_spec(v)) == Some(v),
{
    let s = encode_spec(v);
    assert(s.subrange(0, s.len() as int) =~= s);
    lemma_value_round_trip(v, s, 0);
}

} // verus!
