//! The bindings file: a pretty-printed JSON array of `NamedPath` records.
//!
//! Writer and reader are both here and are exact inverses: the reader
//! accepts precisely the text the writer produces and yields the records
//! back, after keeping only the last record of any repeated minimal path,
//! so a loaded table always has pairwise-distinct keys. Any other text is
//! reported as unreadable, and the caller treats an unreadable or missing
//! file as an empty table and carries on. The file I/O itself stays with
//! the caller.

use vstd::prelude::*;
use vstd::string::*;

use crate::joypaths::{
    MinimalPathLookup, NamedPath, NamedPathView, clone_named_path, mpl_has_key, mpl_keys_unique,
};
use crate::strutil::{hex_val, is_hex, spec_hex_val, spec_is_hex, str_eq};

verus! {

/// The sixteen lowercase hexadecimal digit characters.
pub open spec fn hex_chars() -> Seq<char> {
    "0123456789abcdef"@
}

/// The lowercase digit of a value below sixteen.
pub open spec fn hex_digit(n: int) -> char {
    hex_chars()[n]
}

/// The character a pair of lowercase hexadecimal digits denotes (a value
/// below 256).
pub open spec fn hex_char_of(h: char, l: char) -> char {
    ((spec_hex_val(h) * 16 + spec_hex_val(l)) as u8) as char
}

/// A string value's escaping, character by character: quotes and
/// backslashes get a backslash, control characters become a four-digit
/// hexadecimal escape, everything else stands as itself.
pub open spec fn esc_char(c: char) -> Seq<char> {
    if c == '"' || c == '\\' {
        seq!['\\', c]
    } else if (c as u32) < 32 {
        seq!['\\', 'u', '0', '0', hex_digit(c as u32 as int / 16), hex_digit(c as u32 as int % 16)]
    } else {
        seq![c]
    }
}

/// The escaped form of a whole string value.
pub open spec fn esc(s: Seq<char>) -> Seq<char>
    decreases s.len(),
{
    if s.len() == 0 {
        Seq::empty()
    } else {
        esc_char(s[0]) + esc(s.drop_first())
    }
}

/// The tokens of the file format.
pub open spec fn tok_empty() -> Seq<char> {
    "[]"@
}

pub open spec fn tok_arr_open() -> Seq<char> {
    "[\n"@
}

pub open spec fn tok_arr_close() -> Seq<char> {
    "\n]"@
}

pub open spec fn tok_sep() -> Seq<char> {
    ",\n"@
}

pub open spec fn tok_quote() -> Seq<char> {
    "\""@
}

pub open spec fn tok_null() -> Seq<char> {
    "null"@
}

pub open spec fn tok_full_path() -> Seq<char> {
    "  {\n    \"full_path\": \""@
}

pub open spec fn tok_minimal_path() -> Seq<char> {
    "\",\n    \"minimal_path\": \""@
}

pub open spec fn tok_root_event_path() -> Seq<char> {
    "\",\n    \"root_event_path\": \""@
}

pub open spec fn tok_common_name() -> Seq<char> {
    "\",\n    \"common_name\": "@
}

pub open spec fn tok_obj_close() -> Seq<char> {
    "\n  }"@
}

/// The encoded `common_name` field value: a quoted escaped string, or
/// `null`.
pub open spec fn enc_name(o: Option<Seq<char>>) -> Seq<char> {
    match o {
        Option::Some(s) => tok_quote() + esc(s) + tok_quote(),
        Option::None => tok_null(),
    }
}

/// One encoded record.
pub open spec fn enc_record(np: NamedPathView) -> Seq<char> {
    tok_full_path() + esc(np.full_path) + tok_minimal_path() + esc(np.minimal_path)
        + tok_root_event_path() + esc(np.root_event_path) + tok_common_name() + enc_name(
        np.common_name,
    ) + tok_obj_close()
}

/// A non-empty record list, separated by `tok_sep`.
pub open spec fn enc_records(s: Seq<NamedPathView>) -> Seq<char>
    decreases s.len(),
{
    if s.len() <= 1 {
        enc_record(s[0])
    } else {
        enc_record(s[0]) + tok_sep() + enc_records(s.drop_first())
    }
}

/// The whole file: an empty array, or the records between brackets.
pub open spec fn enc_bindings(s: Seq<NamedPathView>) -> Seq<char> {
    if s.len() == 0 {
        tok_empty()
    } else {
        tok_arr_open() + enc_records(s) + tok_arr_close()
    }
}

/// The literal token stands in the text at position `i`.
pub open spec fn spec_expect(t: Seq<char>, i: int, tok: Seq<char>) -> Option<int> {
    if 0 <= i && i + tok.len() <= t.len() && t.subrange(i, i + tok.len()) == tok {
        Option::Some(i + tok.len())
    } else {
        Option::None
    }
}

/// Scan a string value from position `i` up to its unescaped closing
/// quote: the decoded characters and the position after the quote. The
/// accepted escapes are exactly the writer's: a quote, a backslash, and
/// a four-digit hexadecimal control character.
#[verifier::opaque]
pub open spec fn scan_str(t: Seq<char>, i: int) -> Option<(Seq<char>, int)>
    decreases t.len() - i,
    when 0 <= i <= t.len()
{
    if i >= t.len() {
        Option::None
    } else if t[i] == '"' {
        Option::Some((Seq::empty(), i + 1))
    } else if t[i] == '\\' {
        if i + 1 < t.len() && t[i + 1] == 'u' {
            if i + 5 < t.len() && t[i + 2] == '0' && t[i + 3] == '0' && spec_is_hex(t[i + 4])
                && spec_is_hex(t[i + 5]) {
                match scan_str(t, i + 6) {
                    Option::Some((c, j)) => Option::Some(
                        (seq![hex_char_of(t[i + 4], t[i + 5])] + c, j),
                    ),
                    Option::None => Option::None,
                }
            } else {
                Option::None
            }
        } else if i + 1 < t.len() && (t[i + 1] == '"' || t[i + 1] == '\\') {
            match scan_str(t, i + 2) {
                Option::Some((c, j)) => Option::Some((seq![t[i + 1]] + c, j)),
                Option::None => Option::None,
            }
        } else {
            Option::None
        }
    } else {
        match scan_str(t, i + 1) {
            Option::Some((c, j)) => Option::Some((seq![t[i]] + c, j)),
            Option::None => Option::None,
        }
    }
}

/// Decode one record at position `i`: the record and the position after
/// its closing brace.
pub open spec fn spec_decode_record(t: Seq<char>, i: int) -> Option<(NamedPathView, int)> {
    match spec_expect(t, i, tok_full_path()) {
        Option::None => Option::None,
        Option::Some(i1) => match scan_str(t, i1) {
            Option::None => Option::None,
            Option::Some((fp, i2)) => match spec_expect(t, i2 - 1, tok_minimal_path()) {
                Option::None => Option::None,
                Option::Some(i3) => match scan_str(t, i3) {
                    Option::None => Option::None,
                    Option::Some((mp, i4)) => match spec_expect(t, i4 - 1, tok_root_event_path()) {
                        Option::None => Option::None,
                        Option::Some(i5) => match scan_str(t, i5) {
                            Option::None => Option::None,
                            Option::Some((rp, i6)) => match spec_expect(
                                t,
                                i6 - 1,
                                tok_common_name(),
                            ) {
                                Option::None => Option::None,
                                Option::Some(i7) => spec_decode_name_and_close(t, i7, fp, mp, rp),
                            },
                        },
                    },
                },
            },
        },
    }
}

/// Decode the `common_name` value and the record's closing brace.
pub open spec fn spec_decode_name_and_close(
    t: Seq<char>,
    i: int,
    fp: Seq<char>,
    mp: Seq<char>,
    rp: Seq<char>,
) -> Option<(NamedPathView, int)> {
    if i < t.len() && t[i] == '"' {
        match scan_str(t, i + 1) {
            Option::None => Option::None,
            Option::Some((cn, j)) => match spec_expect(t, j, tok_obj_close()) {
                Option::None => Option::None,
                Option::Some(e) => Option::Some(
                    (
                        NamedPathView {
                            full_path: fp,
                            minimal_path: mp,
                            root_event_path: rp,
                            common_name: Option::Some(cn),
                        },
                        e,
                    ),
                ),
            },
        }
    } else {
        match spec_expect(t, i, tok_null()) {
            Option::None => Option::None,
            Option::Some(j) => match spec_expect(t, j, tok_obj_close()) {
                Option::None => Option::None,
                Option::Some(e) => Option::Some(
                    (
                        NamedPathView {
                            full_path: fp,
                            minimal_path: mp,
                            root_event_path: rp,
                            common_name: Option::None,
                        },
                        e,
                    ),
                ),
            },
        }
    }
}

/// Decode a separated record list from position `i` to the end of the
/// region.
pub open spec fn spec_decode_records(t: Seq<char>, i: int) -> Option<Seq<NamedPathView>>
    decreases t.len() - i,
    when 0 <= i <= t.len()
{
    match spec_decode_record(t, i) {
        Option::None => Option::None,
        Option::Some((np, j)) => if j == t.len() {
            Option::Some(seq![np])
        } else {
            match spec_expect(t, j, tok_sep()) {
                Option::None => Option::None,
                Option::Some(j2) => if i < j2 <= t.len() {
                    match spec_decode_records(t, j2) {
                        Option::None => Option::None,
                        Option::Some(rest) => Option::Some(seq![np] + rest),
                    }
                } else {
                    Option::None
                },
            }
        },
    }
}

/// Decode a whole bindings file.
pub open spec fn spec_decode_bindings(t: Seq<char>) -> Option<Seq<NamedPathView>> {
    if t == tok_empty() {
        Option::Some(Seq::empty())
    } else if t.len() >= tok_arr_open().len() + tok_arr_close().len() && t.subrange(
        0,
        tok_arr_open().len() as int,
    ) == tok_arr_open() && t.subrange(t.len() - tok_arr_close().len(), t.len() as int)
        == tok_arr_close() {
        spec_decode_records(
            t.subrange(tok_arr_open().len() as int, t.len() - tok_arr_close().len()),
            0,
        )
    } else {
        Option::None
    }
}

/// Escape one string value.
fn esc_str(s: &str) -> (r: String)
    ensures
        r@ == esc(s@),
{
    proof {
        reveal_strlit("\\");
    }
    let n: usize = s.unicode_len();
    let mut out = String::new();
    proof {
        assert(s@.subrange(0, n as int) =~= s@);
        assert(Seq::<char>::empty() + esc(s@) =~= esc(s@));
    }
    let mut i: usize = 0;
    while i < n
        invariant
            n == s@.len(),
            0 <= i <= n,
            esc(s@) == out@ + esc(s@.subrange(i as int, n as int)),
        decreases n - i,
    {
        let ghost rest = s@.subrange(i as int, n as int);
        let ghost pre = out@;
        proof {
            assert(rest[0] == s@[i as int]);
            assert(rest.drop_first() =~= s@.subrange(i as int + 1, n as int));
            assert(esc(rest) == esc_char(rest[0]) + esc(rest.drop_first()));
        }
        let c = s.get_char(i);
        if c == '"' || c == '\\' {
            out.append("\\");
            let piece = s.substring_char(i, i + 1);
            proof {
                assert(piece@ =~= seq![s@[i as int]]);
            }
            out.append(piece);
            proof {
                reveal_strlit("\\");
                assert(out@ =~= pre + esc_char(rest[0]));
            }
        } else if (c as u32) < 32 {
            out.append("\\u00");
            let hx = "0123456789abcdef";
            proof {
                reveal_strlit("0123456789abcdef");
                assert(hx@ == hex_chars());
            }
            let hi = ((c as u32) / 16) as usize;
            let lo = ((c as u32) % 16) as usize;
            let p1 = hx.substring_char(hi, hi + 1);
            out.append(p1);
            let p2 = hx.substring_char(lo, lo + 1);
            out.append(p2);
            proof {
                reveal_strlit("\\u00");
                assert(p1@ =~= seq![hex_digit(hi as int)]);
                assert(p2@ =~= seq![hex_digit(lo as int)]);
                assert(("\\u00")@ =~= seq!['\\', 'u', '0', '0']);
                assert(out@ =~= pre + esc_char(rest[0]));
            }
        } else {
            let piece = s.substring_char(i, i + 1);
            proof {
                assert(piece@ =~= seq![s@[i as int]]);
            }
            out.append(piece);
            proof {
                assert(out@ =~= pre + esc_char(rest[0]));
            }
        }
        proof {
            assert(pre + (esc_char(rest[0]) + esc(rest.drop_first())) =~= (pre + esc_char(rest[0]))
                + esc(rest.drop_first()));
        }
        i = i + 1;
    }
    proof {
        assert(s@.subrange(n as int, n as int) =~= Seq::<char>::empty());
        assert(esc(Seq::<char>::empty()) == Seq::<char>::empty());
        assert(esc(s@) =~= out@);
    }
    out
}

/// Append one encoded record.
fn append_record(out: &mut String, np: &NamedPath)
    ensures
        final(out)@ == old(out)@ + enc_record(np@),
{
    out.append("  {\n    \"full_path\": \"");
    let e1 = esc_str(np.full_path.as_str());
    out.append(e1.as_str());
    out.append("\",\n    \"minimal_path\": \"");
    let e2 = esc_str(np.minimal_path.as_str());
    out.append(e2.as_str());
    out.append("\",\n    \"root_event_path\": \"");
    let e3 = esc_str(np.root_event_path.as_str());
    out.append(e3.as_str());
    out.append("\",\n    \"common_name\": ");
    match &np.common_name {
        Option::Some(s) => {
            out.append("\"");
            let e4 = esc_str(s.as_str());
            out.append(e4.as_str());
            out.append("\"");
        },
        Option::None => {
            out.append("null");
        },
    }
    out.append("\n  }");
    proof {
        assert(final(out)@ =~= old(out)@ + enc_record(np@));
    }
}

/// Later-wins key dedup: of records sharing a minimal path, only the
/// last survives, standing where its last occurrence stood.
#[verifier::opaque]
pub open spec fn dedup_last(s: Seq<NamedPathView>) -> Seq<NamedPathView>
    decreases s.len(),
{
    if s.len() == 0 {
        Seq::empty()
    } else if mpl_has_key(s.drop_first(), s[0].minimal_path) {
        dedup_last(s.drop_first())
    } else {
        seq![s[0]] + dedup_last(s.drop_first())
    }
}

/// Dedup keeps exactly the keys of its input.
proof fn lemma_dedup_has_key(s: Seq<NamedPathView>, k: Seq<char>)
    ensures
        mpl_has_key(dedup_last(s), k) <==> mpl_has_key(s, k),
    decreases s.len(),
{
    reveal(dedup_last);
    if s.len() == 0 {
    } else {
        lemma_dedup_has_key(s.drop_first(), k);
        if mpl_has_key(s, k) {
            let i = choose|i: int| 0 <= i < s.len() && s[i].minimal_path == k;
            if i > 0 {
                assert(s.drop_first()[i - 1].minimal_path == k);
                assert(mpl_has_key(s.drop_first(), k));
            }
        }
        if mpl_has_key(s.drop_first(), k) {
            let i = choose|i: int|
                0 <= i < s.drop_first().len() && s.drop_first()[i].minimal_path == k;
            assert(s[i + 1].minimal_path == k);
            assert(mpl_has_key(s, k));
        }
        if mpl_has_key(s.drop_first(), s[0].minimal_path) {
            if mpl_has_key(s, k) && !mpl_has_key(s.drop_first(), k) {
                assert(s[0].minimal_path == k);
                assert(false);
            }
        } else {
            let d = dedup_last(s.drop_first());
            let out = seq![s[0]] + d;
            if mpl_has_key(d, k) {
                let i = choose|i: int| 0 <= i < d.len() && d[i].minimal_path == k;
                assert(out[i + 1].minimal_path == k);
                assert(mpl_has_key(out, k));
            }
            if s[0].minimal_path == k {
                assert(out[0].minimal_path == k);
                assert(mpl_has_key(out, k));
            }
            if mpl_has_key(out, k) {
                let i = choose|i: int| 0 <= i < out.len() && out[i].minimal_path == k;
                if i > 0 {
                    assert(d[i - 1].minimal_path == k);
                    assert(mpl_has_key(d, k));
                }
            }
        }
    }
}

/// What dedup returns has pairwise-distinct keys.
proof fn lemma_dedup_unique(s: Seq<NamedPathView>)
    ensures
        mpl_keys_unique(dedup_last(s)),
    decreases s.len(),
{
    reveal(dedup_last);
    if s.len() == 0 {
    } else {
        lemma_dedup_unique(s.drop_first());
        if mpl_has_key(s.drop_first(), s[0].minimal_path) {
        } else {
            let d = dedup_last(s.drop_first());
            let out = seq![s[0]] + d;
            assert forall|i: int, j: int|
                0 <= i < out.len() && 0 <= j < out.len() && i != j implies out[i].minimal_path
                != out[j].minimal_path by {
                if i == 0 {
                    assert(out[j] == d[j - 1]);
                    if d[j - 1].minimal_path == s[0].minimal_path {
                        assert(mpl_has_key(d, s[0].minimal_path));
                        lemma_dedup_has_key(s.drop_first(), s[0].minimal_path);
                        assert(false);
                    }
                } else if j == 0 {
                    assert(out[i] == d[i - 1]);
                    if d[i - 1].minimal_path == s[0].minimal_path {
                        assert(mpl_has_key(d, s[0].minimal_path));
                        lemma_dedup_has_key(s.drop_first(), s[0].minimal_path);
                        assert(false);
                    }
                } else {
                    assert(out[i] == d[i - 1]);
                    assert(out[j] == d[j - 1]);
                }
            }
        }
    }
}

/// On a table whose keys are already distinct, dedup changes nothing: a
/// well-formed table written and reloaded comes back exactly.
pub proof fn lemma_dedup_identity(s: Seq<NamedPathView>)
    requires
        mpl_keys_unique(s),
    ensures
        dedup_last(s) == s,
    decreases s.len(),
{
    reveal(dedup_last);
    if s.len() == 0 {
        assert(dedup_last(s) =~= s);
    } else {
        if mpl_has_key(s.drop_first(), s[0].minimal_path) {
            let i = choose|i: int|
                0 <= i < s.drop_first().len() && s.drop_first()[i].minimal_path == s[
                    0
                ].minimal_path;
            assert(s[i + 1].minimal_path == s[0].minimal_path);
            assert(false);
        }
        assert forall|i: int, j: int|
            0 <= i < s.drop_first().len() && 0 <= j < s.drop_first().len() && i
                != j implies s.drop_first()[i].minimal_path != s.drop_first()[
            j
        ].minimal_path by {
            assert(s.drop_first()[i] == s[i + 1]);
            assert(s.drop_first()[j] == s[j + 1]);
        }
        lemma_dedup_identity(s.drop_first());
        assert(seq![s[0]] + s.drop_first() =~= s);
    }
}

/// Keep, for each minimal path, only its last record.
fn dedup_records(v: &Vec<NamedPath>) -> (r: Vec<NamedPath>)
    ensures
        r.deep_view() == dedup_last(v.deep_view()),
{
    let ghost d = v.deep_view();
    let n: usize = v.len();
    let mut out: Vec<NamedPath> = Vec::new();
    proof {
        assert(out.deep_view() =~= Seq::<NamedPathView>::empty());
        assert(d.subrange(0, n as int) =~= d);
        assert(Seq::<NamedPathView>::empty() + dedup_last(d) =~= dedup_last(d));
    }

    let mut i: usize = 0;
    while i < n
        invariant
            n == d.len(),
            n == v@.len(),
            d == v.deep_view(),
            0 <= i <= n,
            dedup_last(d) == out.deep_view() + dedup_last(d.subrange(i as int, n as int)),
        decreases n - i,
    {
        let ghost rest = d.subrange(i as int, n as int);
        let ghost pre = out.deep_view();
        proof {
            assert(rest[0] == d[i as int]);
            assert(rest.drop_first() =~= d.subrange(i as int + 1, n as int));
        }
        let mut has_later = false;
        let mut j: usize = i + 1;
        while j < n
            invariant
                n == d.len(),
                n == v@.len(),
                d == v.deep_view(),
                i < n,
                i + 1 <= j <= n,
                !has_later ==> forall|k: int|
                    i < k < j ==> (#[trigger] d[k]).minimal_path != d[i as int].minimal_path,
                has_later ==> mpl_has_key(d.subrange(i as int + 1, n as int), d[
                    i as int
                ].minimal_path),
            decreases n - j,
        {
            if str_eq(v[j].minimal_path.as_str(), v[i].minimal_path.as_str()) {
                proof {
                    assert(d.subrange(i as int + 1, n as int)[j - i - 1].minimal_path == d[
                        i as int
                    ].minimal_path);
                }
                has_later = true;
            }
            j = j + 1;
        }
        if has_later {
            proof {
                reveal(dedup_last);
                assert(dedup_last(rest) == dedup_last(rest.drop_first()));
            }
        } else {
            proof {
                reveal(dedup_last);
                if mpl_has_key(rest.drop_first(), rest[0].minimal_path) {
                    let k = choose|k: int|
                        0 <= k < rest.drop_first().len() && rest.drop_first()[k].minimal_path
                            == rest[0].minimal_path;
                    assert(d[i as int + 1 + k].minimal_path == d[i as int].minimal_path);
                    assert(false);
                }
            }
            let np = clone_named_path(&v[i]);
            out.push(np);
            proof {
                assert(out.deep_view() =~= pre.push(d[i as int]));
                assert forall|s2: Seq<NamedPathView>|
                    pre.push(d[i as int]) + s2 =~= pre + (seq![d[i as int]] + s2) by {}
            }
        }
        i = i + 1;
    }
    proof {
        reveal(dedup_last);
        assert(d.subrange(n as int, n as int) =~= Seq::<NamedPathView>::empty());
        assert(out.deep_view() + dedup_last(Seq::<NamedPathView>::empty()) =~= out.deep_view());
    }
    out
}

impl MinimalPathLookup {
    /// Render the table as the bindings file's text.
    pub fn to_json(&self) -> (r: String)
        ensures
            r@ == enc_bindings(self@),
    {
        let n: usize = self.0.len();
        if n == 0 {
            return String::from_str("[]");
        }
        let mut out = String::from_str("[\n");
        let mut i: usize = 0;
        while i < n
            invariant
                n == self@.len(),
                n == self.0@.len(),
                1 <= n,
                0 <= i <= n,
                i >= 1 ==> out@ == tok_arr_open() + enc_records(self@.subrange(0, i as int)),
                i == 0 ==> out@ == tok_arr_open(),
            decreases n - i,
        {
            let ghost pre = out@;
            if i > 0 {
                out.append(",\n");
            }
            append_record(&mut out, &self.0[i]);
            proof {
                assert(self.0[i as int]@ == self@[i as int]);
                if i == 0 {
                    assert(self@.subrange(0, 1) =~= seq![self@[0]]);
                    assert(enc_records(seq![self@[0]]) == enc_record(self@[0]));
                    assert(out@ =~= tok_arr_open() + enc_records(self@.subrange(0, 1)));
                } else {
                    lemma_enc_records_push(self@.subrange(0, i as int), self@[i as int]);
                    assert(self@.subrange(0, i as int).push(self@[i as int]) =~= self@.subrange(
                        0,
                        i as int + 1,
                    ));
                    assert(out@ =~= tok_arr_open() + enc_records(self@.subrange(0, i as int + 1)));
                }
            }
            i = i + 1;
        }
        out.append("\n]");
        proof {
            assert(self@.subrange(0, n as int) =~= self@);
            assert(out@ =~= enc_bindings(self@));
        }
        out
    }

    /// Read a bindings file's text back into a table. The reader is
    /// strict: only text in the writer's own formatting is readable, and
    /// any other text - other JSON layouts included - is `None`, which
    /// the caller treats as an empty table. Of records sharing a minimal
    /// path the last wins, so the result always has distinct keys.
    pub fn from_json(text: &str) -> (r: Option<MinimalPathLookup>)
        ensures
            match r {
                Option::Some(l) => spec_decode_bindings(text@) is Some && l@ == dedup_last(
                    spec_decode_bindings(text@)->0,
                ) && mpl_keys_unique(l@),
                Option::None => spec_decode_bindings(text@) is None,
            },
    {
        proof {
            reveal_strlit("[]");
            reveal_strlit("[\n");
            reveal_strlit("\n]");
        }
        if str_eq(text, "[]") {
            let l = MinimalPathLookup(Vec::new());
            proof {
                reveal(dedup_last);
                assert(l@ =~= Seq::<NamedPathView>::empty());
                assert(dedup_last(Seq::<NamedPathView>::empty()) =~= Seq::<
                    NamedPathView,
                >::empty());
            }
            return Some(l);
        }
        let n: usize = text.unicode_len();
        if n < 4 {
            return None;
        }
        match expect_tok(text, 0, "[\n") {
            Option::None => {
                return None;
            },
            Option::Some(_) => {},
        }
        let close = text.substring_char(n - 2, n);
        if !str_eq(close, "\n]") {
            proof {
                assert(text@.subrange(n - 2, n as int) != tok_arr_close());
            }
            return None;
        }
        proof {
            assert(text@.subrange(n - 2, n as int) == tok_arr_close());
        }
        let region = text.substring_char(2, n - 2);
        let m: usize = n - 4;
        proof {
            assert(region@.len() == m);
            assert(region@ == text@.subrange(
                tok_arr_open().len() as int,
                text@.len() - tok_arr_close().len(),
            ));
        }
        let mut out: Vec<NamedPath> = Vec::new();
        let mut pos: usize = 0;
        proof {
            assert(out.deep_view() =~= Seq::<NamedPathView>::empty());
            if spec_decode_records(region@, 0) is Some {
                assert(out.deep_view() + spec_decode_records(region@, 0)->0 =~= spec_decode_records(
                    region@,
                    0,
                )->0);
            }
        }
        loop
            invariant
                m == region@.len(),
                0 <= pos <= m,
                spec_decode_bindings(text@) == match spec_decode_records(region@, pos as int) {
                    Option::Some(rest) => Option::Some(out.deep_view() + rest),
                    Option::None => Option::<Seq<NamedPathView>>::None,
                },
            decreases m - pos,
        {
            let ghost pre = out.deep_view();
            match decode_record(region, pos) {
                Option::None => {
                    return None;
                },
                Option::Some((np, j)) => {
                    let ghost npv = np@;
                    out.push(np);
                    proof {
                        assert(out.deep_view() =~= pre.push(npv));
                    }
                    if j == m {
                        proof {
                            assert(spec_decode_records(region@, pos as int) == Option::Some(
                                seq![npv],
                            ));
                            assert(pre.push(npv) =~= pre + seq![npv]);
                        }
                        let deduped = dedup_records(&out);
                        proof {
                            lemma_dedup_unique(out.deep_view());
                        }
                        return Some(MinimalPathLookup(deduped));
                    }
                    match expect_tok(region, j, ",\n") {
                        Option::None => {
                            return None;
                        },
                        Option::Some(j2) => {
                            proof {
                                assert forall|rest: Seq<NamedPathView>|
                                    pre + (seq![npv] + rest) =~= pre.push(npv) + rest by {}
                            }
                            if j2 <= pos {
                                proof {
                                    assert(spec_decode_records(region@, pos as int) is None);
                                }
                                return None;
                            }
                            pos = j2;
                        },
                    }
                },
            }
        }
    }
}

/// The token stands in the text at position `i`.
fn expect_tok(t: &str, i: usize, tok: &str) -> (r: Option<usize>)
    ensures
        match r {
            Option::Some(j) => spec_expect(t@, i as int, tok@) == Option::Some(j as int) && i <= j
                <= t@.len(),
            Option::None => spec_expect(t@, i as int, tok@) is None,
        },
{
    let n: usize = t.unicode_len();
    let k: usize = tok.unicode_len();
    if i > n || k > n - i {
        return None;
    }
    if crate::strutil::check_match_at(t, tok, i) {
        Some(i + k)
    } else {
        None
    }
}

/// Relies on String::push: appends exactly the given character.
#[verifier::external_body]
fn push_char(s: &mut String, c: char)
    ensures
        final(s)@ == old(s)@.push(c),
{
    s.push(c);
}

/// Scan a string value: the decoded content and the position after the
/// closing quote.
fn scan_string(t: &str, start: usize) -> (r: Option<(String, usize)>)
    requires
        start <= t@.len(),
    ensures
        match r {
            Option::Some(p) => scan_str(t@, start as int) == Option::Some((p.0@, p.1 as int))
                && start < p.1 <= t@.len(),
            Option::None => scan_str(t@, start as int) is None,
        },
{
    let n: usize = t.unicode_len();
    let mut acc = String::new();
    proof {
        reveal(scan_str);
    }
    let mut i: usize = start;
    loop
        invariant
            n == t@.len(),
            start <= i <= n,
            scan_str(t@, start as int) == match scan_str(t@, i as int) {
                Option::Some(p) => Option::Some((acc@ + p.0, p.1)),
                Option::None => Option::<(Seq<char>, int)>::None,
            },
        decreases n - i,
    {
        proof {
            reveal(scan_str);
        }
        if i >= n {
            return None;
        }
        let c = t.get_char(i);
        if c == '"' {
            proof {
                assert(acc@ + Seq::<char>::empty() =~= acc@);
            }
            return Some((acc, i + 1));
        }
        if c == '\\' {
            if i + 1 >= n {
                return None;
            }
            let c1 = t.get_char(i + 1);
            if c1 == 'u' {
                if n - i <= 5 {
                    return None;
                }
                let c2 = t.get_char(i + 2);
                let c3 = t.get_char(i + 3);
                let c4 = t.get_char(i + 4);
                let c5 = t.get_char(i + 5);
                if c2 != '0' || c3 != '0' || !is_hex(c4) || !is_hex(c5) {
                    return None;
                }
                let b: u32 = hex_val(c4) * 16 + hex_val(c5);
                let ch: char = (b as u8) as char;
                let ghost accpre = acc@;
                push_char(&mut acc, ch);
                proof {
                    assert(b as int == spec_hex_val(t@[i as int + 4]) * 16 + spec_hex_val(
                        t@[i as int + 5],
                    ));
                    assert(ch == hex_char_of(t@[i as int + 4], t@[i as int + 5]));
                    assert forall|p0: Seq<char>| accpre + (seq![ch] + p0) =~= acc@ + p0 by {}
                }
                i = i + 6;
            } else if c1 == '"' || c1 == '\\' {
                let ghost accpre = acc@;
                let piece = t.substring_char(i + 1, i + 2);
                proof {
                    assert(piece@ =~= seq![t@[i as int + 1]]);
                }
                acc.append(piece);
                proof {
                    assert forall|p0: Seq<char>| accpre + (seq![t@[i as int + 1]] + p0) =~= acc@
                        + p0 by {}
                }
                i = i + 2;
            } else {
                return None;
            }
        } else {
            let ghost accpre = acc@;
            let piece = t.substring_char(i, i + 1);
            proof {
                assert(piece@ =~= seq![t@[i as int]]);
            }
            acc.append(piece);
            proof {
                assert forall|p0: Seq<char>| accpre + (seq![t@[i as int]] + p0) =~= acc@ + p0 by {}
            }
            i = i + 1;
        }
    }
}

/// Decode one record of the region at position `i`.
fn decode_record(t: &str, i: usize) -> (r: Option<(NamedPath, usize)>)
    requires
        i <= t@.len(),
    ensures
        match r {
            Option::Some(p) => spec_decode_record(t@, i as int) == Option::Some(
                (p.0@, p.1 as int),
            ) && i < p.1 <= t@.len(),
            Option::None => spec_decode_record(t@, i as int) is None,
        },
{
    let i1 = match expect_tok(t, i, "  {\n    \"full_path\": \"") {
        Option::None => {
            return None;
        },
        Option::Some(x) => x,
    };
    let (fp, i2) = match scan_string(t, i1) {
        Option::None => {
            return None;
        },
        Option::Some(p) => p,
    };
    let i3 = match expect_tok(t, i2 - 1, "\",\n    \"minimal_path\": \"") {
        Option::None => {
            return None;
        },
        Option::Some(x) => x,
    };
    let (mp, i4) = match scan_string(t, i3) {
        Option::None => {
            return None;
        },
        Option::Some(p) => p,
    };
    let i5 = match expect_tok(t, i4 - 1, "\",\n    \"root_event_path\": \"") {
        Option::None => {
            return None;
        },
        Option::Some(x) => x,
    };
    let (rp, i6) = match scan_string(t, i5) {
        Option::None => {
            return None;
        },
        Option::Some(p) => p,
    };
    let i7 = match expect_tok(t, i6 - 1, "\",\n    \"common_name\": ") {
        Option::None => {
            return None;
        },
        Option::Some(x) => x,
    };
    proof {
        reveal_strlit("\"");
        reveal_strlit("\n  }");
    }
    if i7 < t.unicode_len() && t.get_char(i7) == '"' {
        let (cn, j) = match scan_string(t, i7 + 1) {
            Option::None => {
                return None;
            },
            Option::Some(p) => p,
        };
        let e = match expect_tok(t, j, "\n  }") {
            Option::None => {
                return None;
            },
            Option::Some(x) => x,
        };
        let np = NamedPath {
            full_path: fp,
            minimal_path: mp,
            root_event_path: rp,
            common_name: Some(cn),
        };
        Some((np, e))
    } else {
        let j = match expect_tok(t, i7, "null") {
            Option::None => {
                return None;
            },
            Option::Some(x) => x,
        };
        let e = match expect_tok(t, j, "\n  }") {
            Option::None => {
                return None;
            },
            Option::Some(x) => x,
        };
        let np = NamedPath {
            full_path: fp,
            minimal_path: mp,
            root_event_path: rp,
            common_name: None,
        };
        Some((np, e))
    }
}

/// A record list encodes-then-decodes to itself when one more record is
/// appended.
proof fn lemma_enc_records_push(s: Seq<NamedPathView>, r: NamedPathView)
    requires
        s.len() >= 1,
    ensures
        enc_records(s.push(r)) == enc_records(s) + tok_sep() + enc_record(r),
    decreases s.len(),
{
    if s.len() == 1 {
        let sp = s.push(r);
        assert(sp.drop_first() =~= seq![r]);
        assert(enc_records(sp) == enc_record(sp[0]) + tok_sep() + enc_records(sp.drop_first()));
        assert(sp[0] == s[0]);
        assert(enc_records(seq![r]) == enc_record(r));
    } else {
        let sp = s.push(r);
        assert(sp.drop_first() =~= s.drop_first().push(r));
        lemma_enc_records_push(s.drop_first(), r);
        assert(enc_records(sp) == enc_record(s[0]) + tok_sep() + enc_records(
            s.drop_first().push(r),
        ));
        assert(enc_record(s[0]) + tok_sep() + (enc_records(s.drop_first()) + tok_sep()
            + enc_record(r)) =~= (enc_record(s[0]) + tok_sep() + enc_records(s.drop_first()))
            + tok_sep() + enc_record(r));
    }
}


/// Each of the sixteen digit characters is a hexadecimal digit carrying
/// its own value.
proof fn lemma_hex_digit(n: int)
    requires
        0 <= n < 16,
    ensures
        spec_is_hex(hex_digit(n)),
        spec_hex_val(hex_digit(n)) == n,
{
    reveal_strlit("0123456789abcdef");
    if n == 0 {
    } else if n == 1 {
    } else if n == 2 {
    } else if n == 3 {
    } else if n == 4 {
    } else if n == 5 {
    } else if n == 6 {
    } else if n == 7 {
    } else if n == 8 {
    } else if n == 9 {
    } else if n == 10 {
    } else if n == 11 {
    } else if n == 12 {
    } else if n == 13 {
    } else if n == 14 {
    } else if n == 15 {
    } else {
    }
}

/// Scanning the escaped form of a string, up to a closing quote, yields
/// the string back.
proof fn lemma_scan_esc(t: Seq<char>, i: int, s: Seq<char>)
    requires
        0 <= i,
        i + esc(s).len() + 1 <= t.len(),
        t.subrange(i, i + esc(s).len() as int) == esc(s),
        t[i + esc(s).len()] == '"',
    ensures
        scan_str(t, i) == Option::Some((s, i + esc(s).len() + 1)),
    decreases s.len(),
{
    reveal(scan_str);
    if s.len() == 0 {
        assert(t[i] == '"');
    } else {
        let c = s[0];
        let rest = s.drop_first();
        assert(esc(s) == esc_char(c) + esc(rest));
        let el = esc(s).len() as int;
        if c == '"' || c == '\\' {
            assert(t.subrange(i, i + el)[0] == '\\');
            assert(t.subrange(i, i + el)[1] == c);
            assert(t[i] == '\\');
            assert(t[i + 1] == c);
            assert(t.subrange(i + 2, i + 2 + esc(rest).len() as int) =~= esc(rest)) by {
                assert forall|k: int| 0 <= k < esc(rest).len() implies t.subrange(
                    i + 2,
                    i + 2 + esc(rest).len() as int,
                )[k] == esc(rest)[k] by {
                    assert(t.subrange(i, i + el)[k + 2] == esc(rest)[k]);
                }
            }
            assert(t[i + 2 + esc(rest).len()] == '"');
            lemma_scan_esc(t, i + 2, rest);
            assert(seq![t[i + 1]] + rest =~= s);
        } else if (c as u32) < 32 {
            let hi = c as u32 / 16;
            let lo = c as u32 % 16;
            lemma_hex_digit(hi as int);
            lemma_hex_digit(lo as int);
            assert(t.subrange(i, i + el)[0] == '\\');
            assert(t.subrange(i, i + el)[1] == 'u');
            assert(t.subrange(i, i + el)[2] == '0');
            assert(t.subrange(i, i + el)[3] == '0');
            assert(t.subrange(i, i + el)[4] == hex_digit(hi as int));
            assert(t.subrange(i, i + el)[5] == hex_digit(lo as int));
            assert(t[i] == '\\' && t[i + 1] == 'u' && t[i + 2] == '0' && t[i + 3] == '0');
            assert(t[i + 4] == hex_digit(hi as int) && t[i + 5] == hex_digit(lo as int));
            assert(spec_is_hex(t[i + 4]) && spec_is_hex(t[i + 5]));
            assert(t.subrange(i + 6, i + 6 + esc(rest).len() as int) =~= esc(rest)) by {
                assert forall|k: int| 0 <= k < esc(rest).len() implies t.subrange(
                    i + 6,
                    i + 6 + esc(rest).len() as int,
                )[k] == esc(rest)[k] by {
                    assert(t.subrange(i, i + el)[k + 6] == esc(rest)[k]);
                }
            }
            assert(t[i + 6 + esc(rest).len()] == '"');
            lemma_scan_esc(t, i + 6, rest);
            assert(hex_char_of(t[i + 4], t[i + 5]) == c) by {
                assert(spec_hex_val(t[i + 4]) * 16 + spec_hex_val(t[i + 5]) == c as u32);
                vstd::utf8::char_u32_cast(c, c as u32);
                assert((c as u32) as u8 == c as u32);
            }
            assert(seq![hex_char_of(t[i + 4], t[i + 5])] + rest =~= s);
        } else {
            assert(t.subrange(i, i + el)[0] == c);
            assert(t[i] == c);
            assert(t.subrange(i + 1, i + 1 + esc(rest).len() as int) =~= esc(rest)) by {
                assert forall|k: int| 0 <= k < esc(rest).len() implies t.subrange(
                    i + 1,
                    i + 1 + esc(rest).len() as int,
                )[k] == esc(rest)[k] by {
                    assert(t.subrange(i, i + el)[k + 1] == esc(rest)[k]);
                }
            }
            assert(t[i + 1 + esc(rest).len()] == '"');
            lemma_scan_esc(t, i + 1, rest);
            assert(seq![t[i]] + rest =~= s);
        }
    }
}

/// Reveal every token of the file format.
proof fn tokens_facts()
    ensures
        tok_full_path().len() == 22,
        tok_minimal_path().len() == 24,
        tok_root_event_path().len() == 27,
        tok_common_name().len() == 22,
        tok_obj_close().len() == 4,
        tok_sep().len() == 2,
        tok_null().len() == 4,
        tok_quote().len() == 1,
        tok_arr_open().len() == 2,
        tok_arr_close().len() == 2,
        tok_empty().len() == 2,
        tok_minimal_path()[0] == '"',
        tok_root_event_path()[0] == '"',
        tok_common_name()[0] == '"',
        tok_quote()[0] == '"',
        tok_null()[0] == 'n',
{
    reveal_strlit("  {\n    \"full_path\": \"");
    reveal_strlit("\",\n    \"minimal_path\": \"");
    reveal_strlit("\",\n    \"root_event_path\": \"");
    reveal_strlit("\",\n    \"common_name\": ");
    reveal_strlit("\n  }");
    reveal_strlit(",\n");
    reveal_strlit("null");
    reveal_strlit("\"");
    reveal_strlit("[\n");
    reveal_strlit("\n]");
    reveal_strlit("[]");
}

/// Decoding an encoded record in place yields the record back.
#[verifier::rlimit(100)]
proof fn lemma_decode_enc_record(t: Seq<char>, pre: Seq<char>, np: NamedPathView, suf: Seq<char>)
    requires
        t == pre + enc_record(np) + suf,
    ensures
        spec_decode_record(t, pre.len() as int) == Option::Some(
            (np, pre.len() + enc_record(np).len() as int),
        ),
{
    tokens_facts();
    let i = pre.len() as int;
    let e1 = esc(np.full_path);
    let e2 = esc(np.minimal_path);
    let e3 = esc(np.root_event_path);
    let r = enc_record(np);
    let p1 = i + tok_full_path().len() as int;
    let p2 = p1 + e1.len() as int;
    let p3 = p2 + tok_minimal_path().len() as int;
    let p4 = p3 + e2.len() as int;
    let p5 = p4 + tok_root_event_path().len() as int;
    let p6 = p5 + e3.len() as int;
    let p7 = p6 + tok_common_name().len() as int;
    assert(r.len() == tok_full_path().len() + e1.len() + tok_minimal_path().len() + e2.len()
        + tok_root_event_path().len() + e3.len() + tok_common_name().len() + enc_name(
        np.common_name,
    ).len() + tok_obj_close().len());
    assert forall|k: int| 0 <= k < r.len() implies t[i + k] == r[k] by {}
    assert(t.subrange(i, p1) =~= tok_full_path());
    assert(spec_expect(t, i, tok_full_path()) == Option::Some(p1));
    assert(t.subrange(p1, p2) =~= e1);
    assert(t[p2] == tok_minimal_path()[0]);
    lemma_scan_esc(t, p1, np.full_path);
    assert(scan_str(t, p1) == Option::Some((np.full_path, p2 + 1)));
    assert(t.subrange(p2, p3) =~= tok_minimal_path());
    assert(spec_expect(t, p2, tok_minimal_path()) == Option::Some(p3));
    assert(t.subrange(p3, p4) =~= e2);
    assert(t[p4] == tok_root_event_path()[0]);
    lemma_scan_esc(t, p3, np.minimal_path);
    assert(t.subrange(p4, p5) =~= tok_root_event_path());
    assert(spec_expect(t, p4, tok_root_event_path()) == Option::Some(p5));
    assert(t.subrange(p5, p6) =~= e3);
    assert(t[p6] == tok_common_name()[0]);
    lemma_scan_esc(t, p5, np.root_event_path);
    assert(t.subrange(p6, p7) =~= tok_common_name());
    assert(spec_expect(t, p6, tok_common_name()) == Option::Some(p7));
    match np.common_name {
        Option::Some(cn) => {
            let ec = esc(cn);
            let p8 = p7 + 1 + ec.len() as int;
            assert(t[p7] == '"');
            assert(t.subrange(p7 + 1, p8) =~= ec);
            assert(t[p8] == '"');
            lemma_scan_esc(t, p7 + 1, cn);
            assert(scan_str(t, p7 + 1) == Option::Some((cn, p8 + 1)));
            assert(t.subrange(p8 + 1, p8 + 5) =~= tok_obj_close());
            assert(spec_expect(t, p8 + 1, tok_obj_close()) == Option::Some(p8 + 5));
            assert(p8 + 5 == i + r.len());
        },
        Option::None => {
            assert(t[p7] == 'n');
            assert(t.subrange(p7, p7 + 4) =~= tok_null());
            assert(spec_expect(t, p7, tok_null()) == Option::Some(p7 + 4));
            assert(t.subrange(p7 + 4, p7 + 8) =~= tok_obj_close());
            assert(spec_expect(t, p7 + 4, tok_obj_close()) == Option::Some(p7 + 8));
            assert(p7 + 8 == i + r.len());
        },
    }
}

/// Decoding an encoded record list in place yields the list back.
#[verifier::rlimit(100)]
proof fn lemma_decode_enc_records(t: Seq<char>, pre: Seq<char>, s: Seq<NamedPathView>)
    requires
        s.len() >= 1,
        t == pre + enc_records(s),
    ensures
        spec_decode_records(t, pre.len() as int) == Option::Some(s),
    decreases s.len(),
{
    tokens_facts();
    let i = pre.len() as int;
    if s.len() == 1 {
        assert(t =~= pre + enc_record(s[0]) + Seq::<char>::empty());
        lemma_decode_enc_record(t, pre, s[0], Seq::empty());
        assert(i + enc_record(s[0]).len() == t.len());
        assert(seq![s[0]] =~= s);
    } else {
        let s0 = s[0];
        let rest = s.drop_first();
        assert(enc_records(s) == enc_record(s0) + tok_sep() + enc_records(rest));
        let suf = tok_sep() + enc_records(rest);
        assert(t =~= pre + enc_record(s0) + suf) by {
            assert(t == pre + (enc_record(s0) + tok_sep() + enc_records(rest)));
        }
        lemma_decode_enc_record(t, pre, s0, suf);
        let j = i + enc_record(s0).len() as int;
        let ppre = pre + enc_record(s0);
        assert(t =~= ppre + suf);
        assert(j == ppre.len());
        assert(t.subrange(j, j + 2) =~= tok_sep()) by {
            assert(t == ppre + suf);
            assert forall|k: int| 0 <= k < 2 implies t[j + k] == tok_sep()[k] by {
                assert(t[j + k] == suf[k]);
                assert(suf[k] == tok_sep()[k]);
            }
        }
        assert(spec_expect(t, j, tok_sep()) == Option::Some(j + 2));
        let pre2 = ppre + tok_sep();
        assert(t =~= pre2 + enc_records(rest)) by {
            assert(t == ppre + (tok_sep() + enc_records(rest)));
        }
        lemma_decode_enc_records(t, pre2, rest);
        assert(pre2.len() == j + 2);
        assert(spec_decode_records(t, j + 2) == Option::Some(rest));
        assert(seq![s0] + rest =~= s);
    }
}

/// The written text of a table decodes back to exactly the records that
/// were written.
pub open spec fn decodes_back(s: Seq<NamedPathView>) -> bool {
    spec_decode_bindings(enc_bindings(s)) == Option::Some(s)
}

/// Persisting a table and reloading it yields the table back, so every
/// minimal path keeps its common name across the round trip; on a table
/// with distinct keys the reader's later-wins dedup changes nothing, so
/// the reloaded table is the written one exactly.
pub proof fn lemma_bindings_round_trip(records: Seq<NamedPathView>)
    ensures
        decodes_back(records),
        mpl_keys_unique(records) ==> dedup_last(
            spec_decode_bindings(enc_bindings(records))->0,
        ) == records,
{
    if mpl_keys_unique(records) {
        lemma_dedup_identity(records);
    }
    let s = records;
    tokens_facts();
    let t = enc_bindings(s);
    if s.len() == 0 {
        assert(t == tok_empty());
        assert(spec_decode_bindings(t) == Option::Some(Seq::<NamedPathView>::empty()));
        assert(Seq::<NamedPathView>::empty() =~= s);
    } else {
        assert(t == tok_arr_open() + enc_records(s) + tok_arr_close());
        assert(t.len() == 4 + enc_records(s).len());
        assert(t.len() != tok_empty().len());
        assert(t != tok_empty());
        assert(t.subrange(0, 2) =~= tok_arr_open());
        assert(t.subrange(t.len() - 2, t.len() as int) =~= tok_arr_close());
        let region = t.subrange(2, t.len() - 2);
        assert(region =~= Seq::<char>::empty() + enc_records(s));
        lemma_decode_enc_records(region, Seq::empty(), s);
        assert(spec_decode_records(region, 0) == Option::Some(s));
    }
}

} // verus!
