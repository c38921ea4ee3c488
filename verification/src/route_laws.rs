//! What texts, paths, patterns and queries mean, stated over their characters: how a
//! text falls apart, what a pattern fits and captures, and what a query says.

use crate::router::{self, Route};
use crate::text;
use crate::types::{
    self, Body, IntoBody, IntoResponse, Json, Method, Pairs, Request, Response, ResponseView,
};
use vstd::prelude::*;

verus! {

/// A text does not hold a character.
pub open spec fn lacks(s: Seq<char>, c: char) -> bool {
    forall|j: int| 0 <= j < s.len() ==> #[trigger] s[j] != c
}

/// The value of a key is the one that stands with it, and a key without a value stands
/// nowhere.
pub proof fn law_lookup_is_membership(p: Pairs, k: Seq<char>, v: Seq<char>)
    requires
        types::distinct_keys(p),
    ensures
        types::lookup(p, k) == Some(v) <==> p.contains((k, v)),
        types::lookup(p, k) is None <==> forall|i: int| 0 <= i < p.len() ==> #[trigger] p[i].0 != k,
{
    types::lemma_key_at(p, k, 0);
    match types::key_at(p, k, 0) {
        Some(i) => {
            assert(p[i] == (k, p[i].1));
            if p.contains((k, v)) {
                let j = choose|j: int| 0 <= j < p.len() && p[j] == (k, v);
                assert(p[j].0 == k);
                if i < j {
                    assert(p[i].0 != p[j].0);
                } else if j < i {
                    assert(p[j].0 != p[i].0);
                }
            }
        },
        None => {
            if p.contains((k, v)) {
                let j = choose|j: int| 0 <= j < p.len() && p[j] == (k, v);
                assert(p[j].0 == k);
            }
        },
    }
}

/// Setting the value of a key puts that pair in, leaves the pairs of all other keys in,
/// puts no others in, and leaves the keys in their order.
pub proof fn law_set_value_is_the_only_change(
    p: Pairs,
    k: Seq<char>,
    v: Seq<char>,
    other: Seq<char>,
    w: Seq<char>,
)
    requires
        types::distinct_keys(p),
        other != k,
    ensures
        ({
            let n = types::with_pair(p, k, v);
            &&& types::distinct_keys(n)
            &&& n.contains((k, v))
            &&& n.contains((other, w)) <==> p.contains((other, w))
            &&& p.len() <= n.len() <= p.len() + 1
            &&& forall|i: int| 0 <= i < p.len() ==> #[trigger] n[i].0 == p[i].0
        }),
{
    let n = types::with_pair(p, k, v);
    types::law_insert_then_lookup(p, k, v, other);
    law_lookup_is_membership(n, k, v);
    law_lookup_is_membership(n, other, w);
    law_lookup_is_membership(p, other, w);
    types::lemma_key_at(p, k, 0);
}

/// The first place of a character is where it is found.
proof fn lemma_found(s: Seq<char>, c: char, from: int, i: int)
    requires
        0 <= from <= i < s.len(),
        s[i] == c,
        forall|j: int| from <= j < i ==> #[trigger] s[j] != c,
    ensures
        text::find_char(s, c, from) == Some(i),
{
    text::lemma_find_char(s, c, from);
}

/// Splitting from a place on is splitting what is behind it.
proof fn lemma_split_from(s: Seq<char>, sep: char, from: int)
    requires
        0 <= from <= s.len(),
    ensures
        text::split_from(s, sep, from) == text::split(s.subrange(from, s.len() as int), sep),
    decreases s.len() - from,
{
    let t = s.subrange(from, s.len() as int);
    text::lemma_find_char(s, sep, from);
    text::lemma_find_char(t, sep, 0);
    match text::find_char(s, sep, from) {
        None => {
            match text::find_char(t, sep, 0) {
                Some(k) => {
                    assert(s[from + k] == sep);
                },
                None => {},
            }
            assert(t.subrange(0, t.len() as int) =~= t);
        },
        Some(i) => {
            let k = i - from;
            assert(t[k] == s[i]);
            assert forall|j: int| 0 <= j < k implies #[trigger] t[j] != sep by {
                assert(t[j] == s[from + j]);
            }
            lemma_found(t, sep, 0, k);
            lemma_split_from(s, sep, i + 1);
            lemma_split_from(t, sep, k + 1);
            assert(t.subrange(k + 1, t.len() as int) =~= s.subrange(i + 1, s.len() as int));
            assert(t.subrange(0, k) =~= s.subrange(from, i));
        },
    }
}

/// A text without the separator is one piece, and a text falls apart at each separator:
/// the pieces of two texts with one between them are the pieces of the first, and behind
/// them those of the second.
pub proof fn law_split_at_every_separator(a: Seq<char>, b: Seq<char>, sep: char)
    ensures
        lacks(a, sep) ==> text::split(a, sep) == seq![a],
        text::split(a + seq![sep] + b, sep) == text::split(a, sep) + text::split(b, sep),
    decreases a.len(),
{
    let s = a + seq![sep] + b;
    text::lemma_find_char(a, sep, 0);
    match text::find_char(a, sep, 0) {
        None => {
            assert(a.subrange(0, a.len() as int) =~= a);
            assert(s[a.len() as int] == sep);
            assert forall|j: int| 0 <= j < a.len() implies #[trigger] s[j] != sep by {
                assert(s[j] == a[j]);
            }
            lemma_found(s, sep, 0, a.len() as int);
            lemma_split_from(s, sep, a.len() as int + 1);
            assert(s.subrange(a.len() as int + 1, s.len() as int) =~= b);
            assert(s.subrange(0, a.len() as int) =~= a);
        },
        Some(i) => {
            let a2 = a.subrange(i + 1, a.len() as int);
            assert(s[i] == sep);
            assert forall|j: int| 0 <= j < i implies #[trigger] s[j] != sep by {
                assert(s[j] == a[j]);
            }
            lemma_found(s, sep, 0, i);
            lemma_split_from(s, sep, i + 1);
            lemma_split_from(a, sep, i + 1);
            assert(s.subrange(i + 1, s.len() as int) =~= a2 + seq![sep] + b);
            law_split_at_every_separator(a2, b, sep);
            assert(s.subrange(0, i) =~= a.subrange(0, i));
            assert(text::split(s, sep) =~= text::split(a, sep) + text::split(b, sep));
            assert(!lacks(a, sep)) by {
                assert(a[i] == sep);
            }
        },
    }
}

proof fn lemma_filled(x: Seq<Seq<char>>, y: Seq<Seq<char>>, k: nat)
    requires
        k <= x.len() + y.len(),
    ensures
        k <= x.len() ==> router::filled(x + y, k) == router::filled(x, k),
        k >= x.len() ==> router::filled(x + y, k) == router::filled(x, x.len()) + router::filled(
            y,
            (k - x.len()) as nat,
        ),
    decreases k,
{
    if k > 0 {
        lemma_filled(x, y, (k - 1) as nat);
        let z = x + y;
        if k <= x.len() {
            assert(z[k - 1] == x[k - 1]);
        } else {
            assert(z[k - 1] == y[k - 1 - x.len()]);
            let j = (k - x.len()) as nat;
            assert(router::filled(z, k) =~= router::filled(x, x.len()) + router::filled(y, j));
        }
        if k == x.len() {
            assert(router::filled(x, k) + router::filled(y, 0) =~= router::filled(x, k));
        }
    } else {
        assert(router::filled(x, 0) + router::filled(y, 0) =~= router::filled(x + y, 0));
    }
}

/// The parts of a path are what lies between its slashes, where there is anything: a
/// piece without a slash is one part, an empty path has none, and a slash only parts what
/// is around it.
pub proof fn law_path_parts(a: Seq<char>, b: Seq<char>)
    ensures
        lacks(a, '/') && a.len() > 0 ==> router::path_parts(a) == seq![a],
        a.len() == 0 ==> router::path_parts(a).len() == 0,
        router::path_parts(a + seq!['/'] + b) == router::path_parts(a) + router::path_parts(b),
{
    law_split_at_every_separator(a, b, '/');
    let x = text::split(a, '/');
    let y = text::split(b, '/');
    lemma_filled(x, y, x.len() + y.len());
    if lacks(a, '/') {
        reveal_with_fuel(router::filled, 2);
        assert(router::filled(seq![a], 0) =~= Seq::empty());
        if a.len() > 0 {
            assert(router::path_parts(a) =~= seq![a]);
        }
    }
}

/// A part of a pattern is a name if it begins with a colon.
pub open spec fn names(part: Seq<char>, k: Seq<char>) -> bool {
    part == seq![':'] + k
}

proof fn lemma_segment(part: Seq<char>, k: Seq<char>)
    ensures
        names(part, k) <==> router::segment_of(part) == router::SegmentView::Param(k),
{
    if names(part, k) {
        assert(part.subrange(1, part.len() as int) =~= k);
    }
    if router::segment_of(part) == router::SegmentView::Param(k) {
        assert(part =~= seq![':'] + part.subrange(1, part.len() as int));
    }
}

/// A path fits a pattern exactly if both have the same number of parts, and every part of
/// the pattern that does not begin with a colon is the part of the path at its place.
pub proof fn law_pattern_fits(raw: Seq<char>, path: Seq<char>)
    ensures
        router::pattern_fits(raw, path) <==> {
            let pattern = router::path_parts(raw);
            let parts = router::path_parts(path);
            &&& pattern.len() == parts.len()
            &&& forall|i: int|
                0 <= i < pattern.len() && !(pattern[i].len() > 0 && pattern[i][0] == ':')
                    ==> #[trigger] pattern[i] == parts[i]
        },
{
    let pattern = router::path_parts(raw);
    let parts = router::path_parts(path);
    let segments = router::pattern_segments(raw);
    if router::pattern_fits(raw, path) {
        assert forall|i: int|
            0 <= i < pattern.len() && !(pattern[i].len() > 0 && pattern[i][0] == ':') implies
                #[trigger] pattern[i] == parts[i] by {
            assert(segments[i] == router::SegmentView::Literal(pattern[i]));
        }
    }
    if pattern.len() == parts.len() && forall|i: int|
        0 <= i < pattern.len() && !(pattern[i].len() > 0 && pattern[i][0] == ':')
            ==> #[trigger] pattern[i] == parts[i] {
        assert forall|i: int| 0 <= i < segments.len() implies (#[trigger] segments[i] matches
            router::SegmentView::Literal(l) ==> l == parts[i]) by {
            assert(segments[i] == router::segment_of(pattern[i]));
        }
    }
}

/// What a key stands for among the captures of the first `n` parts: the last part that
/// the pattern names so, decoded; nothing if the pattern names none so.
proof fn lemma_captures(
    pattern: Seq<Seq<char>>,
    segments: Seq<router::SegmentView>,
    parts: Seq<Seq<char>>,
    n: nat,
    k: Seq<char>,
)
    requires
        n <= pattern.len(),
        segments == Seq::new(pattern.len(), |i: int| router::segment_of(pattern[i])),
    ensures
        types::distinct_keys(router::captures(segments, parts, n)),
        forall|i: int|
            0 <= i < n && names(#[trigger] pattern[i], k) && (forall|j: int|
                i < j < n ==> !names(#[trigger] pattern[j], k)) ==> types::lookup(
                router::captures(segments, parts, n),
                k,
            ) == Some(types::decoded(parts[i])),
        (forall|j: int| 0 <= j < n ==> !names(#[trigger] pattern[j], k)) ==> types::lookup(
            router::captures(segments, parts, n),
            k,
        ) is None,
    decreases n,
{
    if n > 0 {
        lemma_captures(pattern, segments, parts, (n - 1) as nat, k);
        let before = router::captures(segments, parts, (n - 1) as nat);
        let after = router::captures(segments, parts, n);
        lemma_segment(pattern[n - 1], k);
        match segments[n - 1] {
            router::SegmentView::Literal(_) => {},
            router::SegmentView::Param(name) => {
                types::law_insert_then_lookup(before, name, types::decoded(parts[n - 1]), k);
            },
        }
        assert forall|i: int|
            0 <= i < n && names(#[trigger] pattern[i], k) && (forall|j: int|
                i < j < n ==> !names(#[trigger] pattern[j], k)) implies types::lookup(
            after,
            k,
        ) == Some(types::decoded(parts[i])) by {
            if i < n - 1 {
                assert(!names(pattern[n - 1], k));
                assert(types::lookup(before, k) == Some(types::decoded(parts[i])));
            }
        }
        if forall|j: int| 0 <= j < n ==> !names(#[trigger] pattern[j], k) {
            assert(!names(pattern[n - 1], k));
        }
    } else {
        types::lemma_key_missing(router::captures(segments, parts, 0), k, 0);
    }
}

/// A path parameter is the part of the path that stands where the pattern has its name,
/// decoded. Of several parts with one name the last one counts, and a name that the
/// pattern does not have is no parameter.
pub proof fn law_path_parameter(raw: Seq<char>, path: Seq<char>, k: Seq<char>)
    requires
        router::pattern_fits(raw, path),
    ensures
        ({
            let pattern = router::path_parts(raw);
            let parts = router::path_parts(path);
            let found = types::lookup(router::pattern_captures(raw, path), k);
            &&& forall|i: int|
                0 <= i < pattern.len() && #[trigger] pattern[i] == seq![':'] + k && (forall|j: int|
                    i < j < pattern.len() ==> #[trigger] pattern[j] != seq![':'] + k) ==> found
                    == Some(types::decoded(parts[i]))
            &&& (forall|j: int| 0 <= j < pattern.len() ==> #[trigger] pattern[j] != seq![':'] + k)
                ==> found is None
        }),
{
    let pattern = router::path_parts(raw);
    let parts = router::path_parts(path);
    let segments = router::pattern_segments(raw);
    lemma_captures(pattern, segments, parts, segments.len(), k);
    let found = types::lookup(router::pattern_captures(raw, path), k);
    assert forall|i: int|
        0 <= i < pattern.len() && #[trigger] pattern[i] == seq![':'] + k && (forall|j: int|
            i < j < pattern.len() ==> #[trigger] pattern[j] != seq![':'] + k) implies found
        == Some(types::decoded(parts[i])) by {
        assert(names(pattern[i], k));
        assert forall|j: int| i < j < pattern.len() implies !names(#[trigger] pattern[j], k) by {
            assert(pattern[j] != seq![':'] + k);
        }
    }
    if forall|j: int| 0 <= j < pattern.len() ==> #[trigger] pattern[j] != seq![':'] + k {
        assert forall|j: int| 0 <= j < pattern.len() implies !names(#[trigger] pattern[j], k) by {
            assert(pattern[j] != seq![':'] + k);
        }
    }
}

/// The request that a handler gets is the one that came: method, URI, headers and body
/// are the same. Its path parameters are the parts of its path that stand where the
/// pattern of the route has names, decoded.
pub proof fn law_handler_gets_the_request<H>(
    route: Route<H>,
    before: Request,
    after: Request,
    k: Seq<char>,
    i: int,
)
    requires
        route.pattern.wf(),
        router::is_routed(route, before, after),
        router::pattern_fits(route.pattern.raw@, before.uri.path@),
        0 <= i < router::path_parts(route.pattern.raw@).len(),
        router::path_parts(route.pattern.raw@)[i] == seq![':'] + k,
        forall|j: int|
            i < j < router::path_parts(route.pattern.raw@).len() ==> #[trigger] router::path_parts(
                route.pattern.raw@,
            )[j] != seq![':'] + k,
    ensures
        after@ == before@,
        after.uri == before.uri,
        types::lookup(after.path_params.pairs(), k) == Some(
            types::decoded(router::path_parts(before.uri.path@)[i]),
        ),
{
    let pattern = router::path_parts(route.pattern.raw@);
    law_path_parameter(route.pattern.raw@, before.uri.path@, k);
    lemma_segment(pattern[i], k);
    assert(route.pattern.segments_view()[i] == router::SegmentView::Param(k)) by {
        assert(router::pattern_segments(route.pattern.raw@)[i] == router::segment_of(pattern[i]));
    }
    assert(route.pattern.segments@[i] is Param);
}

/// A route is for a request: it has the method, as many parts in its pattern as there are
/// in the path, and the same parts wherever the pattern has no name.
pub open spec fn is_for<H>(route: Route<H>, method: Method, path: Seq<char>) -> bool {
    let pattern = router::path_parts(route.pattern.raw@);
    let parts = router::path_parts(path);
    &&& route.method == method
    &&& pattern.len() == parts.len()
    &&& forall|i: int|
        0 <= i < pattern.len() && !(pattern[i].len() > 0 && pattern[i][0] == ':')
            ==> #[trigger] pattern[i] == parts[i]
}

/// Of the routes that are for a request the first one is found, and if there is one, one
/// is found.
pub proof fn law_first_route_for_a_request<H>(
    routes: Seq<Route<H>>,
    method: Method,
    path: Seq<char>,
)
    ensures
        match router::first_route(routes, method, path, 0) {
            Some(i) => 0 <= i < routes.len() && is_for(routes[i], method, path) && forall|j: int|
                0 <= j < i ==> !is_for(#[trigger] routes[j], method, path),
            None => forall|j: int|
                0 <= j < routes.len() ==> !is_for(#[trigger] routes[j], method, path),
        },
{
    router::law_first_match_wins(routes, method, path);
    assert forall|j: int| 0 <= j < routes.len() implies is_for(#[trigger] routes[j], method, path)
        == routes[j].takes(method, path) by {
        law_pattern_fits(routes[j].pattern.raw@, path);
    }
}

/// A byte is the hexadecimal digit of a value.
pub open spec fn is_hex(b: u8, value: int) -> bool {
    ||| 0 <= value < 10 && b == 48 + value
    ||| 10 <= value < 16 && (b == 55 + value || b == 87 + value)
}

/// Decoding from the end of the first of two texts on is decoding the second.
proof fn lemma_unescaped_behind(a: Seq<u8>, b: Seq<u8>, j: int)
    requires
        0 <= j <= b.len(),
    ensures
        types::unescaped(a + b, a.len() + j) == types::unescaped(b, j),
    decreases b.len() - j,
{
    let s = a + b;
    let n = a.len() as int;
    if j < b.len() {
        assert(s[n + j] == b[j]);
        lemma_unescaped_behind(a, b, j + 1);
        if j + 2 < b.len() {
            assert(s[n + j + 1] == b[j + 1]);
            assert(s[n + j + 2] == b[j + 2]);
            lemma_unescaped_behind(a, b, j + 3);
        }
    }
}

proof fn lemma_unescaped_parts(a: Seq<u8>, b: Seq<u8>, i: int)
    requires
        0 <= i <= a.len(),
        forall|j: int| 0 <= j < a.len() && j + 2 >= a.len() ==> #[trigger] a[j] != 37,
    ensures
        types::unescaped(a + b, i) == types::unescaped(a, i) + types::unescaped(b, 0),
    decreases a.len() - i,
{
    let s = a + b;
    if i == a.len() {
        lemma_unescaped_behind(a, b, 0);
        assert(types::unescaped(a, i) + types::unescaped(b, 0) =~= types::unescaped(b, 0));
    } else {
        assert(s[i] == a[i]);
        lemma_unescaped_parts(a, b, i + 1);
        if a[i] == 37 {
            assert(i + 2 < a.len());
            assert(s[i + 1] == a[i + 1]);
            assert(s[i + 2] == a[i + 2]);
            lemma_unescaped_parts(a, b, i + 3);
        }
        assert(types::unescaped(s, i) =~= types::unescaped(a, i) + types::unescaped(b, 0));
    }
}

/// A text is decoded from left to right, part by part: two texts one behind the other
/// decode to what each of them decodes to, unless the first one ends in the middle of an
/// escape.
pub proof fn law_decode_part_by_part(a: Seq<u8>, b: Seq<u8>)
    requires
        forall|j: int| 0 <= j < a.len() && j + 2 >= a.len() ==> #[trigger] a[j] != 37,
    ensures
        types::unescaped(a + b, 0) == types::unescaped(a, 0) + types::unescaped(b, 0),
{
    lemma_unescaped_parts(a, b, 0);
}

/// What the parts of a text decode to: a percent sign with two hexadecimal digits is the
/// byte of that value, whichever letters the digits are written with; a plus sign is a
/// space; any other byte is itself.
pub proof fn law_decode_one_part(c: u8, hi: u8, lo: u8, h: int, l: int)
    requires
        c != 37,
        is_hex(hi, h),
        is_hex(lo, l),
    ensures
        types::unescaped(seq![37u8, hi, lo], 0) == seq![(16 * h + l) as u8],
        types::unescaped(seq![c], 0) == seq![if c == 43 {
            32u8
        } else {
            c
        }],
        types::unescaped(Seq::<u8>::empty(), 0) == Seq::<u8>::empty(),
{
    reveal_with_fuel(types::unescaped, 3);
    assert(types::unescaped(seq![37u8, hi, lo], 0) =~= seq![(16 * h + l) as u8]);
    assert(types::unescaped(seq![c], 0) =~= seq![if c == 43 {
        32u8
    } else {
        c
    }]);
}

/// A percent sign that no two hexadecimal digits follow is itself.
pub proof fn law_decode_keeps_a_stray_percent(rest: Seq<u8>)
    requires
        rest.len() < 2 || (forall|h: int| !#[trigger] is_hex(rest[0], h)) || (forall|l: int|
            !#[trigger] is_hex(rest[1], l)),
    ensures
        types::unescaped(seq![37u8] + rest, 0) == seq![37u8] + types::unescaped(rest, 0),
{
    let s = seq![37u8] + rest;
    lemma_unescaped_behind(seq![37u8], rest, 0);
    if rest.len() >= 2 {
        assert(s[1] == rest[0]);
        assert(s[2] == rest[1]);
        if types::hex_digit(rest[0]) is Some {
            assert(is_hex(rest[0], types::hex_digit(rest[0])->0 as int));
        }
        if types::hex_digit(rest[1]) is Some {
            assert(is_hex(rest[1], types::hex_digit(rest[1])->0 as int));
        }
    }
}

/// A decoded text has the bytes that the bytes of the text decode to, wherever those are
/// the bytes of a text at all.
pub proof fn law_decoded_text(s: Seq<char>)
    requires
        vstd::utf8::valid_utf8(types::unescaped(vstd::utf8::encode_utf8(s), 0)),
    ensures
        vstd::utf8::encode_utf8(types::decoded(s)) == types::unescaped(
            vstd::utf8::encode_utf8(s),
            0,
        ),
{
    vstd::utf8::decode_utf8_encode_utf8(types::unescaped(vstd::utf8::encode_utf8(s), 0));
}

/// A piece of a query is a key and a value, with the first equals sign between them, each
/// of them decoded; without one it is a key, and the value is empty.
pub proof fn law_query_piece(key: Seq<char>, value: Seq<char>)
    requires
        lacks(key, '='),
    ensures
        types::query_pair(key + seq!['='] + value) == (types::decoded(key), types::decoded(value)),
        types::query_pair(key) == (types::decoded(key), Seq::<char>::empty()),
{
    let piece = key + seq!['='] + value;
    let n = key.len() as int;
    assert(piece[n] == '=');
    assert forall|j: int| 0 <= j < n implies #[trigger] piece[j] != '=' by {
        assert(piece[j] == key[j]);
    }
    lemma_found(piece, '=', 0, n);
    assert(piece.subrange(0, n) =~= key);
    assert(piece.subrange(n + 1, piece.len() as int) =~= value);
    text::lemma_find_char(key, '=', 0);
    types::law_decode_leaves_plain_text(Seq::<char>::empty());
}

#[verifier::rlimit(80)]
proof fn lemma_query(pieces: Seq<Seq<char>>, n: nat, k: Seq<char>)
    requires
        n <= pieces.len(),
    ensures
        types::distinct_keys(types::pairs_of(pieces, n)),
        forall|i: int|
            0 <= i < n && says(#[trigger] pieces[i], k) && (forall|j: int|
                i < j < n ==> !says(#[trigger] pieces[j], k)) ==> types::lookup(
                types::pairs_of(pieces, n),
                k,
            ) == Some(types::query_pair(pieces[i]).1),
        (forall|j: int| 0 <= j < n ==> !says(#[trigger] pieces[j], k)) ==> types::lookup(
            types::pairs_of(pieces, n),
            k,
        ) is None,
    decreases n,
{
    if n > 0 {
        lemma_query(pieces, (n - 1) as nat, k);
        let before = types::pairs_of(pieces, (n - 1) as nat);
        let after = types::pairs_of(pieces, n);
        let piece = pieces[n - 1];
        if piece.len() > 0 {
            types::law_insert_then_lookup(
                before,
                types::query_pair(piece).0,
                types::query_pair(piece).1,
                k,
            );
        }
        assert forall|i: int|
            0 <= i < n && says(#[trigger] pieces[i], k) && (forall|j: int|
                i < j < n ==> !says(#[trigger] pieces[j], k)) implies types::lookup(after, k)
            == Some(types::query_pair(pieces[i]).1) by {
            if i < n - 1 {
                assert(!says(pieces[n - 1], k));
                assert(types::lookup(before, k) == Some(types::query_pair(pieces[i]).1));
            }
        }
        if forall|j: int| 0 <= j < n ==> !says(#[trigger] pieces[j], k) {
            assert(!says(pieces[n - 1], k));
        }
    } else {
        types::lemma_key_missing(types::pairs_of(pieces, 0), k, 0);
    }
}

/// A piece of a query is not empty, and has a key.
pub open spec fn says(piece: Seq<char>, k: Seq<char>) -> bool {
    piece.len() > 0 && types::query_pair(piece).0 == k
}

/// The value of a query parameter is that of the last piece between ampersands that has
/// its key. A key that no piece has is no parameter, and empty pieces say nothing.
pub proof fn law_query_parameter(query: Seq<char>, k: Seq<char>)
    ensures
        ({
            let pieces = text::split(query, '&');
            let found = types::lookup(types::query_pairs(query), k);
            &&& forall|i: int|
                0 <= i < pieces.len() && says(#[trigger] pieces[i], k) && (forall|j: int|
                    i < j < pieces.len() ==> !says(#[trigger] pieces[j], k)) ==> found == Some(
                    types::query_pair(pieces[i]).1,
                )
            &&& (forall|j: int| 0 <= j < pieces.len() ==> !says(#[trigger] pieces[j], k))
                ==> found is None
        }),
{
    lemma_query(text::split(query, '&'), text::split(query, '&').len(), k);
}

/// A URI without a colon has no scheme: its path is what is in front of the first
/// question mark, or `/` if that is empty, and its query is what is behind it.
pub proof fn law_uri_without_scheme(path: Seq<char>, query: Seq<char>)
    requires
        lacks(path, '?'),
        lacks(path, ':'),
    ensures
        types::uri_path(path + seq!['?'] + query) == if path.len() == 0 {
            seq!['/']
        } else {
            path
        },
        types::uri_query(path + seq!['?'] + query) == Some(query),
        types::uri_path(path) == if path.len() == 0 {
            seq!['/']
        } else {
            path
        },
        types::uri_query(path) is None,
{
    let raw = path + seq!['?'] + query;
    let n = path.len() as int;
    lemma_first_mark(raw, 0, n);
    lemma_first_mark(path, 0, n);
    let i = types::first_mark(raw, 0);
    if 0 < i {
        assert(raw[i - 1] == path[i - 1]);
    }
    let j = types::first_mark(path, 0);
    if 0 < j {
        assert(path[j - 1] != ':');
    }
    assert(types::uri_rest(raw) =~= raw);
    assert(types::uri_rest(path) =~= path);
    assert(raw[n] == '?');
    assert forall|k: int| 0 <= k < n implies #[trigger] raw[k] != '?' by {
        assert(raw[k] == path[k]);
    }
    lemma_found(raw, '?', 0, n);
    text::lemma_find_char(path, '?', 0);
    assert(raw.subrange(0, n) =~= path);
    assert(raw.subrange(n + 1, raw.len() as int) =~= query);
}

/// The first mark is not behind a question mark at `n`.
proof fn lemma_first_mark(s: Seq<char>, from: int, n: int)
    requires
        0 <= from <= n <= s.len(),
        n < s.len() ==> s[n] == '?',
    ensures
        from <= types::first_mark(s, from) <= n,
    decreases n - from,
{
    if from < n {
        lemma_first_mark(s, from + 1, n);
    }
}

/// A text, a body, or bytes that a handler returns are a success with them for a body; a
/// status with a text is that status with the text; a response is itself; and a result is
/// what is in it. None of them has headers of its own.
pub proof fn law_what_a_handler_returns(
    status: u16,
    t: &'static str,
    s: String,
    b: Body,
    v: Vec<u8>,
    r: Response,
    tried: Result<(u16, String), Response>,
)
    ensures
        IntoResponse::as_response(t) == success_with(vstd::utf8::encode_utf8(t@)),
        IntoResponse::as_response(s) == success_with(vstd::utf8::encode_utf8(s@)),
        IntoResponse::as_response(b) == success_with(b@),
        IntoResponse::as_response(v) == success_with(v@),
        IntoResponse::as_response(r) == (ResponseView {
            status: r.status,
            headers: r.headers.pairs(),
            body: r.body@,
        }),
        IntoResponse::as_response((status, t)) == (ResponseView {
            status,
            headers: Seq::empty(),
            body: vstd::utf8::encode_utf8(t@),
        }),
        IntoResponse::as_response((status, s)) == (ResponseView {
            status,
            headers: Seq::empty(),
            body: vstd::utf8::encode_utf8(s@),
        }),
        match tried {
            Ok(x) => IntoResponse::as_response(tried) == IntoResponse::as_response(x),
            Err(x) => IntoResponse::as_response(tried) == IntoResponse::as_response(x),
        },
{
}

/// A success with a body and no headers.
pub open spec fn success_with(body: Seq<u8>) -> ResponseView {
    ResponseView { status: 200, headers: Seq::empty(), body }
}

/// JSON that a handler returns is a success that says what it carries; what could not be
/// encoded is an error.
pub proof fn law_json_that_a_handler_returns(encoded: Option<Vec<u8>>)
    ensures
        ({
            let v = IntoResponse::as_response(Json(encoded));
            match encoded {
                Some(b) => {
                    &&& v.status == 200
                    &&& v.body == b@
                    &&& types::lookup(v.headers, "content-type"@) == Some("application/json"@)
                },
                None => v.status == 500 && v.headers.len() == 0,
            }
        }),
{
    let v = IntoResponse::as_response(Json(encoded));
    if encoded is Some {
        assert(v.headers[0].0 == "content-type"@);
    }
}

/// What is made a body of keeps its bytes; a text gives its UTF-8 bytes.
pub proof fn law_bodies_keep_their_bytes(b: Body, v: Vec<u8>, part: &[u8], t: &str, s: String)
    ensures
        IntoBody::body_bytes(b) == b@,
        IntoBody::body_bytes(v) == v@,
        IntoBody::body_bytes(part) == part@,
        IntoBody::body_bytes(t) == vstd::utf8::encode_utf8(t@),
        IntoBody::body_bytes(s) == vstd::utf8::encode_utf8(s@),
{
}

/// The methods are numbered from zero on, in the order in which they are declared, and
/// each has the name that requests are written with.
pub proof fn law_methods_are_numbered(m: Method)
    ensures
        types::method_byte(m) == match m {
            Method::Get => 0,
            Method::Post => 1int,
            Method::Put => 2,
            Method::Delete => 3,
            Method::Patch => 4,
        },
        types::method_byte(m) < 5,
        forall|b: u8| b >= 5 ==> #[trigger] types::byte_method(b) is None,
        types::method_name(m) == match m {
            Method::Get => seq!['G', 'E', 'T'],
            Method::Post => seq!['P', 'O', 'S', 'T'],
            Method::Put => seq!['P', 'U', 'T'],
            Method::Delete => seq!['D', 'E', 'L', 'E', 'T', 'E'],
            Method::Patch => seq!['P', 'A', 'T', 'C', 'H'],
        },
{
    reveal_strlit("GET");
    reveal_strlit("POST");
    reveal_strlit("PUT");
    reveal_strlit("DELETE");
    reveal_strlit("PATCH");
}

/// The query of a request is that of its URI, and nothing if that has none.
pub proof fn law_query_of_a_request(req: Request)
    requires
        req.uri.wf(),
    ensures
        req.query_text() == match types::uri_query(req.uri.raw@) {
            Some(q) => q,
            None => Seq::empty(),
        },
        req.uri.path@ == types::uri_path(req.uri.raw@),
{
}

/// A colon is no scheme without two slashes behind it: such a URI is a path as it stands.
pub proof fn law_colon_alone_is_no_scheme(a: Seq<char>, b: Seq<char>)
    requires
        lacks(a, '/'),
        lacks(a, '?'),
        lacks(b, '?'),
        a.len() == 0 || a[a.len() - 1] != ':' || b.len() == 0 || b[0] != '/',
    ensures
        types::uri_path(a + seq!['/'] + b) == a + seq!['/'] + b,
        types::uri_query(a + seq!['/'] + b) is None,
{
    let raw = a + seq!['/'] + b;
    let n = a.len() as int;
    assert(raw[n] == '/');
    lemma_slash(raw, 0, n);
    if n > 0 {
        assert(raw[n - 1] == a[n - 1]);
    }
    if b.len() > 0 {
        assert(raw[n + 1] == b[0]);
    }
    assert(!types::has_scheme(raw));
    assert(types::uri_rest(raw) =~= raw);
    assert forall|k: int| 0 <= k < raw.len() implies #[trigger] raw[k] != '?' by {
        if k < n {
            assert(raw[k] == a[k]);
        } else if k > n {
            assert(raw[k] == b[k - n - 1]);
        }
    }
    text::lemma_find_char(raw, '?', 0);
}

/// The first mark is a slash that no mark is in front of.
proof fn lemma_slash(s: Seq<char>, from: int, n: int)
    requires
        0 <= from <= n < s.len(),
        s[n] == '/',
        forall|k: int| from <= k < n ==> #[trigger] s[k] != '/' && s[k] != '?',
    ensures
        types::first_mark(s, from) == n,
    decreases n - from,
{
    if from < n {
        assert(s[from] != '/');
        lemma_slash(s, from + 1, n);
    }
}

} // verus!
