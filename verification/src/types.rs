//! Requests, responses, and what they are made of.

use crate::memory;
use crate::text::{
    self, bytes_of, char_at_or_after, chars_of, same_text, split_text,
    text_of_bytes, text_of_bytes_lossy, text_range,
};
use vstd::prelude::*;
use vstd::std_specs::convert::{FromSpecImpl, TryFromSpecImpl};

verus! {

/// Pairs of text in the order in which their keys came first.
pub type Pairs = Seq<(Seq<char>, Seq<char>)>;

/// The position of a key among some pairs, from `from` on.
pub open spec fn key_at(p: Pairs, k: Seq<char>, from: int) -> Option<int>
    decreases p.len() - from,
{
    if from >= p.len() {
        None
    } else if p[from].0 == k {
        Some(from)
    } else {
        key_at(p, k, from + 1)
    }
}

/// The value of a key, if there is one.
pub open spec fn lookup(p: Pairs, k: Seq<char>) -> Option<Seq<char>> {
    match key_at(p, k, 0) {
        Some(i) => Some(p[i].1),
        None => None,
    }
}

/// The pairs with a value for a key: a key that is there keeps its place and
/// gets the new value, another one comes last.
pub open spec fn with_pair(p: Pairs, k: Seq<char>, v: Seq<char>) -> Pairs {
    match key_at(p, k, 0) {
        Some(i) => p.update(i, (k, v)),
        None => p.push((k, v)),
    }
}

/// No key occurs twice.
pub open spec fn distinct_keys(p: Pairs) -> bool {
    forall|i: int, j: int| 0 <= i < j < p.len() ==> #[trigger] p[i].0 != #[trigger] p[j].0
}

/// What is found at a key's position.
pub proof fn lemma_key_at(p: Pairs, k: Seq<char>, from: int)
    requires
        0 <= from,
    ensures
        match key_at(p, k, from) {
            Some(i) => from <= i < p.len() && p[i].0 == k && forall|j: int|
                from <= j < i ==> #[trigger] p[j].0 != k,
            None => forall|j: int| from <= j < p.len() ==> #[trigger] p[j].0 != k,
        },
    decreases p.len() - from,
{
    if from < p.len() {
        lemma_key_at(p, k, from + 1);
    }
}

proof fn lemma_key_found(p: Pairs, k: Seq<char>, from: int, i: int)
    requires
        0 <= from <= i < p.len(),
        p[i].0 == k,
        forall|j: int| from <= j < i ==> #[trigger] p[j].0 != k,
    ensures
        key_at(p, k, from) == Some(i),
    decreases i - from,
{
    if from < i {
        lemma_key_found(p, k, from + 1, i);
    }
}

/// A key that no pair has is not found.
pub proof fn lemma_key_missing(p: Pairs, k: Seq<char>, from: int)
    requires
        0 <= from,
        forall|j: int| from <= j < p.len() ==> #[trigger] p[j].0 != k,
    ensures
        key_at(p, k, from) is None,
    decreases p.len() - from,
{
    if from < p.len() {
        lemma_key_missing(p, k, from + 1);
    }
}

/// A value is found under its key after it was inserted; all other keys keep
/// their values, and no key occurs twice.
pub proof fn law_insert_then_lookup(p: Pairs, k: Seq<char>, v: Seq<char>, other: Seq<char>)
    requires
        distinct_keys(p),
    ensures
        lookup(with_pair(p, k, v), k) == Some(v),
        other != k ==> lookup(with_pair(p, k, v), other) == lookup(p, other),
        distinct_keys(with_pair(p, k, v)),
{
    lemma_key_at(p, k, 0);
    lemma_key_at(p, other, 0);
    let n = with_pair(p, k, v);
    match key_at(p, k, 0) {
        Some(i) => {
            assert forall|j: int| 0 <= j < p.len() implies #[trigger] n[j].0 == p[j].0 by {}
            lemma_key_found(n, k, 0, i);
            if other != k {
                match key_at(p, other, 0) {
                    Some(j) => {
                        lemma_key_found(n, other, 0, j);
                    },
                    None => {
                        lemma_key_missing(n, other, 0);
                    },
                }
            }
        },
        None => {
            assert forall|j: int| 0 <= j < p.len() implies #[trigger] n[j] == p[j] by {}
            lemma_key_found(n, k, 0, p.len() as int);
            if other != k {
                match key_at(p, other, 0) {
                    Some(j) => {
                        lemma_key_found(n, other, 0, j);
                    },
                    None => {
                        lemma_key_missing(n, other, 0);
                    },
                }
            }
        },
    }
}

/// A map from text to text that remembers the order of its keys.
#[derive(Debug)]
pub struct StringMap {
    /// The pairs.
    pub entries: Vec<(String, String)>,
}

impl StringMap {
    /// The pairs as plain text.
    pub open spec fn pairs(&self) -> Pairs {
        Seq::new(self.entries@.len(), |i: int| (self.entries@[i].0@, self.entries@[i].1@))
    }

    /// No key occurs twice.
    pub open spec fn wf(&self) -> bool {
        distinct_keys(self.pairs())
    }

    /// An empty map.
    pub fn new() -> (r: StringMap)
        ensures
            r.pairs() == Seq::<(Seq<char>, Seq<char>)>::empty(),
            r.wf(),
    {
        let r: StringMap = StringMap { entries: Vec::new() };
        assert(r.pairs() =~= Seq::<(Seq<char>, Seq<char>)>::empty());
        r
    }

    /// Number of keys.
    pub fn len(&self) -> (r: usize)
        ensures
            r == self.pairs().len(),
    {
        self.entries.len()
    }

    /// Whether there are no keys.
    pub fn is_empty(&self) -> (r: bool)
        ensures
            r == (self.pairs().len() == 0),
    {
        self.entries.len() == 0
    }

    fn position(&self, key: &str) -> (r: Option<usize>)
        ensures
            match key_at(self.pairs(), key@, 0) {
                Some(i) => r matches Some(j) && i == j && j < self.entries@.len(),
                None => r is None,
            },
    {
        let mut i: usize = 0;
        while i < self.entries.len()
            invariant
                i <= self.entries@.len(),
                key_at(self.pairs(), key@, i as int) == key_at(self.pairs(), key@, 0),
            decreases self.entries@.len() - i,
        {
            if same_text(self.entries[i].0.as_str(), key) {
                return Some(i);
            }
            i = i + 1;
        }
        None
    }

    /// The value of a key.
    pub fn get(&self, key: &str) -> (r: Option<&String>)
        ensures
            match lookup(self.pairs(), key@) {
                Some(v) => r matches Some(s) && s@ == v,
                None => r is None,
            },
    {
        match self.position(key) {
            Some(i) => Some(&self.entries[i].1),
            None => None,
        }
    }

    /// Sets the value of a key.
    pub fn insert(&mut self, key: String, value: String)
        ensures
            final(self).pairs() == with_pair(old(self).pairs(), key@, value@),
            old(self).wf() ==> final(self).wf(),
    {
        proof {
            if self.wf() {
                law_insert_then_lookup(self.pairs(), key@, value@, key@);
            }
        }
        match self.position(key.as_str()) {
            Some(i) => {
                self.entries.set(i, (key, value));
            },
            None => {
                self.entries.push((key, value));
            },
        }
        assert(self.pairs() =~= with_pair(old(self).pairs(), key@, value@));
    }

    /// A copy.
    pub fn copied(&self) -> (r: StringMap)
        ensures
            r.pairs() == self.pairs(),
    {
        let mut entries: Vec<(String, String)> = Vec::new();
        let mut i: usize = 0;
        while i < self.entries.len()
            invariant
                i <= self.entries@.len(),
                entries@.len() == i,
                forall|j: int|
                    0 <= j < i ==> (#[trigger] entries@[j]).0@ == self.entries@[j].0@
                        && entries@[j].1@ == self.entries@[j].1@,
            decreases self.entries@.len() - i,
        {
            entries.push((self.entries[i].0.clone(), self.entries[i].1.clone()));
            i = i + 1;
        }
        let r: StringMap = StringMap { entries };
        assert(r.pairs() =~= self.pairs());
        r
    }
}

/// A body that lies in a block of shared memory. The block goes back to the
/// pool when the body is let go.
#[derive(Debug)]
pub struct ShmBodyGuard {
    /// The block.
    pub block_idx: u32,
    /// Where in the block the body lies.
    pub offset: usize,
    /// The bytes of the body.
    pub data: Vec<u8>,
}

/// The body of a request or response.
#[derive(Debug)]
pub enum Body {
    /// No body.
    Empty,
    /// Bytes of its own.
    Owned(Vec<u8>),
    /// Bytes in a block of shared memory.
    Mmap(ShmBodyGuard),
}

impl View for Body {
    type V = Seq<u8>;

    open spec fn view(&self) -> Seq<u8> {
        match self {
            Body::Empty => Seq::empty(),
            Body::Owned(v) => v@,
            Body::Mmap(g) => g.data@,
        }
    }
}

impl Body {
    /// The block that the body holds on to, if there is one.
    pub open spec fn held(&self) -> Option<u32> {
        match self {
            Body::Mmap(g) => Some(g.block_idx),
            _ => None,
        }
    }

    /// The block that the body holds on to, computed.
    pub fn held_block(&self) -> (r: Option<u32>)
        ensures
            r == self.held(),
    {
        match self {
            Body::Mmap(g) => Some(g.block_idx),
            _ => None,
        }
    }

    /// An empty body.
    pub fn new() -> (r: Body)
        ensures
            r is Empty,
            r@ == Seq::<u8>::empty(),
    {
        Body::Empty
    }

    /// Number of bytes.
    pub fn len(&self) -> (r: usize)
        ensures
            r == self@.len(),
    {
        match self {
            Body::Empty => 0,
            Body::Owned(v) => v.len(),
            Body::Mmap(g) => g.data.len(),
        }
    }

    /// Whether there are no bytes.
    pub fn is_empty(&self) -> (r: bool)
        ensures
            r == (self@.len() == 0),
    {
        self.len() == 0
    }

    /// The bytes.
    pub fn to_vec(&self) -> (r: Vec<u8>)
        ensures
            r@ == self@,
    {
        match self {
            Body::Empty => Vec::new(),
            Body::Owned(v) => memory::copy_range(v.as_slice(), 0, v.len()),
            Body::Mmap(g) => memory::copy_range(g.data.as_slice(), 0, g.data.len()),
        }
    }

    /// A body of the given bytes.
    pub fn from_vec(v: Vec<u8>) -> (r: Body)
        ensures
            r@ == v@,
            r is Empty <==> v@.len() == 0,
            r !is Mmap,
    {
        if v.len() == 0 {
            assert(v@ =~= Seq::<u8>::empty());
            Body::Empty
        } else {
            Body::Owned(v)
        }
    }
}

impl Default for Body {
    fn default() -> (r: Body)
        ensures
            r is Empty,
    {
        Body::Empty
    }
}

impl Clone for Body {
    fn clone(&self) -> (r: Body)
        ensures
            r@ == self@,
            r !is Mmap,
            self is Empty <==> r is Empty,
    {
        match self {
            Body::Empty => Body::Empty,
            _ => Body::Owned(self.to_vec()),
        }
    }
}

/// What can become a body.
pub trait IntoBody: Sized {
    /// The bytes of the body.
    spec fn body_bytes(self) -> Seq<u8>;

    /// The block that the body holds on to, if there is one.
    spec fn body_block(self) -> Option<u32>;

    /// Becomes a body.
    fn into_body(self) -> (r: Body)
        ensures
            r@ == self.body_bytes(),
            r.held() == self.body_block(),
    ;
}

impl IntoBody for Body {
    open spec fn body_bytes(self) -> Seq<u8> {
        self@
    }

    open spec fn body_block(self) -> Option<u32> {
        self.held()
    }

    fn into_body(self) -> (r: Body) {
        self
    }
}

impl IntoBody for Vec<u8> {
    open spec fn body_bytes(self) -> Seq<u8> {
        self@
    }

    open spec fn body_block(self) -> Option<u32> {
        None
    }

    fn into_body(self) -> (r: Body) {
        Body::from_vec(self)
    }
}

impl IntoBody for &[u8] {
    open spec fn body_bytes(self) -> Seq<u8> {
        self@
    }

    open spec fn body_block(self) -> Option<u32> {
        None
    }

    fn into_body(self) -> (r: Body) {
        let n: usize = self.len();
        let v: Vec<u8> = memory::copy_range(self, 0, n);
        assert(v@ =~= self@);
        Body::from_vec(v)
    }
}

impl IntoBody for &str {
    open spec fn body_bytes(self) -> Seq<u8> {
        vstd::utf8::encode_utf8(self@)
    }

    open spec fn body_block(self) -> Option<u32> {
        None
    }

    fn into_body(self) -> (r: Body) {
        let b: &[u8] = bytes_of(self);
        let n: usize = b.len();
        let v: Vec<u8> = memory::copy_range(b, 0, n);
        assert(v@ =~= b@);
        Body::from_vec(v)
    }
}

impl IntoBody for String {
    open spec fn body_bytes(self) -> Seq<u8> {
        vstd::utf8::encode_utf8(self@)
    }

    open spec fn body_block(self) -> Option<u32> {
        None
    }

    fn into_body(self) -> (r: Body) {
        self.as_str().into_body()
    }
}

/// The method of a request.
#[derive(Debug, Clone, Copy, PartialEq, Eq, Structural)]
pub enum Method {
    /// `GET`: retrieve a resource.
    Get,
    /// `POST`: submit data to a resource.
    Post,
    /// `PUT`: replace a resource.
    Put,
    /// `DELETE`: remove a resource.
    Delete,
    /// `PATCH`: partially update a resource.
    Patch,
}

/// The name of a method.
pub open spec fn method_name(m: Method) -> Seq<char> {
    match m {
        Method::Get => "GET"@,
        Method::Post => "POST"@,
        Method::Put => "PUT"@,
        Method::Delete => "DELETE"@,
        Method::Patch => "PATCH"@,
    }
}

/// The byte of a method.
pub open spec fn method_byte(m: Method) -> u8 {
    match m {
        Method::Get => 0,
        Method::Post => 1,
        Method::Put => 2,
        Method::Delete => 3,
        Method::Patch => 4,
    }
}

/// The method of a byte.
pub open spec fn byte_method(b: u8) -> Option<Method> {
    if b == 0 {
        Some(Method::Get)
    } else if b == 1 {
        Some(Method::Post)
    } else if b == 2 {
        Some(Method::Put)
    } else if b == 3 {
        Some(Method::Delete)
    } else if b == 4 {
        Some(Method::Patch)
    } else {
        None
    }
}

/// The byte of a method stands for that method, and a byte that stands for a
/// method is that method's byte.
pub proof fn law_method_bytes(m: Method, b: u8)
    ensures
        byte_method(method_byte(m)) == Some(m),
        byte_method(b) matches Some(n) ==> method_byte(n) == b,
{
}

impl Method {
    /// The name in capitals.
    pub fn as_str(self) -> (r: &'static str)
        ensures
            r@ == method_name(self),
    {
        match self {
            Method::Get => "GET",
            Method::Post => "POST",
            Method::Put => "PUT",
            Method::Delete => "DELETE",
            Method::Patch => "PATCH",
        }
    }
}

impl From<Method> for u8 {
    fn from(m: Method) -> (r: u8) {
        match m {
            Method::Get => 0,
            Method::Post => 1,
            Method::Put => 2,
            Method::Delete => 3,
            Method::Patch => 4,
        }
    }
}

impl FromSpecImpl<Method> for u8 {
    open spec fn obeys_from_spec() -> bool {
        true
    }

    open spec fn from_spec(m: Method) -> u8 {
        method_byte(m)
    }
}

impl TryFrom<u8> for Method {
    type Error = u8;

    fn try_from(v: u8) -> (r: Result<Method, u8>) {
        if v == 0 {
            Ok(Method::Get)
        } else if v == 1 {
            Ok(Method::Post)
        } else if v == 2 {
            Ok(Method::Put)
        } else if v == 3 {
            Ok(Method::Delete)
        } else if v == 4 {
            Ok(Method::Patch)
        } else {
            Err(v)
        }
    }
}

impl TryFromSpecImpl<u8> for Method {
    open spec fn obeys_try_from_spec() -> bool {
        true
    }

    open spec fn try_from_spec(v: u8) -> Result<Method, u8> {
        match byte_method(v) {
            Some(m) => Ok(m),
            None => Err(v),
        }
    }
}

/// The first `/` or `?` from `from` on, or the end.
pub open spec fn first_mark(s: Seq<char>, from: int) -> int
    decreases s.len() - from,
{
    if from >= s.len() {
        s.len() as int
    } else if s[from] == '/' || s[from] == '?' {
        from
    } else {
        first_mark(s, from + 1)
    }
}

/// A URI begins with a scheme: its first `/` or `?` is that of `://`.
pub open spec fn has_scheme(raw: Seq<char>) -> bool {
    let i = first_mark(raw, 0);
    0 < i && i + 1 < raw.len() && raw[i - 1] == ':' && raw[i] == '/' && raw[i + 1] == '/'
}

/// Where the path of a URI begins: behind scheme and authority, if there are
/// any. An authority ends at the first `/` or `?`.
pub open spec fn path_start(raw: Seq<char>) -> int {
    if has_scheme(raw) {
        first_mark(raw, first_mark(raw, 0) + 2)
    } else {
        0
    }
}

/// A URI without scheme and authority.
pub open spec fn uri_rest(raw: Seq<char>) -> Seq<char> {
    raw.subrange(path_start(raw), raw.len() as int)
}

/// The path of a URI: up to the first `?`. An empty path is `/`.
pub open spec fn uri_path(raw: Seq<char>) -> Seq<char> {
    let rest = uri_rest(raw);
    let path = match text::find_char(rest, '?', 0) {
        Some(q) => rest.subrange(0, q),
        None => rest,
    };
    if path.len() == 0 {
        seq!['/']
    } else {
        path
    }
}

/// The query of a URI: what is behind the first `?`.
pub open spec fn uri_query(raw: Seq<char>) -> Option<Seq<char>> {
    let rest = uri_rest(raw);
    match text::find_char(rest, '?', 0) {
        Some(q) => Some(rest.subrange(q + 1, rest.len() as int)),
        None => None,
    }
}

fn mark_at_or_after(s: &[char], from: usize) -> (r: usize)
    requires
        from <= s@.len(),
    ensures
        r == first_mark(s@, from as int),
        from <= r <= s@.len(),
{
    let mut i: usize = from;
    while i < s.len()
        invariant
            from <= i <= s@.len(),
            first_mark(s@, i as int) == first_mark(s@, from as int),
        decreases s@.len() - i,
    {
        if s[i] == '/' || s[i] == '?' {
            return i;
        }
        i = i + 1;
    }
    i
}

/// A parsed URI.
#[derive(Debug)]
pub struct Uri {
    /// As it was given.
    pub raw: String,
    /// The path.
    pub path: String,
    /// The query.
    pub query: Option<String>,
}

impl Uri {
    /// The parts are those of the URI as it was given.
    pub open spec fn wf(&self) -> bool {
        &&& self.path@ == uri_path(self.raw@)
        &&& match self.query {
            Some(q) => uri_query(self.raw@) == Some(q@),
            None => uri_query(self.raw@) is None,
        }
    }

    /// Takes a URI apart. Scheme and authority are dropped.
    pub fn parse(raw: &str) -> (r: Uri)
        ensures
            r.wf(),
            r.raw@ == raw@,
    {
        let c: Vec<char> = chars_of(raw);
        let n: usize = c.len();
        let mark: usize = mark_at_or_after(c.as_slice(), 0);
        let scheme: bool = 0 < mark && mark < n && 1 < n - mark && c[mark - 1] == ':' && c[mark]
            == '/' && c[mark + 1] == '/';
        let start: usize = if scheme {
            mark_at_or_after(c.as_slice(), mark + 2)
        } else {
            0
        };
        let mut rest: Vec<char> = Vec::new();
        let mut i: usize = start;
        while i < n
            invariant
                start <= i <= n,
                n == c@.len(),
                rest@ =~= c@.subrange(start as int, i as int),
            decreases n - i,
        {
            rest.push(c[i]);
            i = i + 1;
        }
        assert(rest@ =~= uri_rest(raw@));
        let len: usize = rest.len();
        let (end, query): (usize, Option<String>) = match char_at_or_after(
            rest.as_slice(),
            '?',
            0,
        ) {
            Some(q) => (q, Some(text_range(rest.as_slice(), q + 1, len))),
            None => (len, None),
        };
        let path: String = if end == 0 {
            let slash: Vec<char> = vec!['/'];
            assert(slash@ =~= seq!['/']);
            text::string_of(slash.as_slice())
        } else {
            text_range(rest.as_slice(), 0, end)
        };
        assert(rest@.subrange(0, len as int) =~= rest@);
        Uri { raw: raw.to_owned(), path, query }
    }

    /// The path.
    pub fn path(&self) -> (r: &str)
        ensures
            r@ == self.path@,
    {
        self.path.as_str()
    }

    /// The query.
    pub fn query(&self) -> (r: Option<&str>)
        ensures
            match self.query {
                Some(q) => r matches Some(s) && s@ == q@,
                None => r is None,
            },
    {
        match &self.query {
            Some(q) => Some(q.as_str()),
            None => None,
        }
    }

    /// The URI as it was given.
    pub fn raw(&self) -> (r: &str)
        ensures
            r@ == self.raw@,
    {
        self.raw.as_str()
    }
}

/// The path of a URI is never empty.
pub proof fn law_path_is_never_empty(raw: Seq<char>)
    ensures
        uri_path(raw).len() > 0,
{
}

/// The first mark is where it is.
proof fn lemma_first_mark(s: Seq<char>, from: int, i: int)
    requires
        0 <= from <= i <= s.len(),
        forall|j: int| from <= j < i ==> #[trigger] s[j] != '/' && s[j] != '?',
        i < s.len() ==> s[i] == '/' || s[i] == '?',
    ensures
        first_mark(s, from) == i,
    decreases i - from,
{
    if from < i {
        lemma_first_mark(s, from + 1, i);
    }
}

/// Scheme and authority are dropped, and path and query are kept: a URI with
/// them has the path and the query of the rest. That is also so where the rest
/// is nothing but a query.
pub proof fn law_scheme_and_authority_are_dropped(
    scheme: Seq<char>,
    authority: Seq<char>,
    rest: Seq<char>,
)
    requires
        forall|j: int| 0 <= j < scheme.len() ==> #[trigger] scheme[j] != '/' && scheme[j] != '?',
        forall|j: int|
            0 <= j < authority.len() ==> #[trigger] authority[j] != '/' && authority[j] != '?',
        rest.len() > 0 ==> rest[0] == '/' || rest[0] == '?',
    ensures
        ({
            let raw = scheme + seq![':', '/', '/'] + authority + rest;
            &&& uri_path(raw) == uri_path(rest)
            &&& uri_query(raw) == uri_query(rest)
        }),
{
    let raw = scheme + seq![':', '/', '/'] + authority + rest;
    let n = scheme.len() as int;
    lemma_first_mark(raw, 0, n + 1);
    lemma_first_mark(raw, n + 3, n + 3 + authority.len());
    lemma_first_mark(rest, 0, 0);
    assert(uri_rest(raw) =~= rest);
    assert(uri_rest(rest) =~= rest);
}

/// A URI without a scheme is path and query as it stands, whatever is in the
/// query.
pub proof fn law_bare_uri_is_kept(path: Seq<char>, query: Seq<char>)
    requires
        path.len() > 0,
        path[0] == '/',
        forall|j: int| 0 <= j < path.len() ==> #[trigger] path[j] != '?',
    ensures
        uri_path(path + seq!['?'] + query) == path,
        uri_query(path + seq!['?'] + query) == Some(query),
        uri_path(path) == path,
        uri_query(path) is None,
{
    let raw = path + seq!['?'] + query;
    lemma_first_mark(raw, 0, 0);
    lemma_first_mark(path, 0, 0);
    assert(uri_rest(raw) =~= raw);
    assert(uri_rest(path) =~= path);
    text::lemma_find_char(raw, '?', 0);
    text::lemma_find_char(path, '?', 0);
    assert(raw[path.len() as int] == '?');
    match text::find_char(raw, '?', 0) {
        Some(q) => {
            if q < path.len() {
                assert(path[q] == '?');
            }
            assert(q == path.len());
            assert(raw.subrange(0, q) =~= path);
            assert(raw.subrange(q + 1, raw.len() as int) =~= query);
        },
        None => {},
    }
}

/// A request.
#[derive(Debug)]
pub struct Request {
    /// The method.
    pub method: Method,
    /// The URI.
    pub uri: Uri,
    /// The headers.
    pub headers: StringMap,
    /// The body.
    pub body: Body,
    /// The path parameters that the router found.
    pub path_params: StringMap,
}

/// A request as plain values.
#[verifier::ext_equal]
pub struct RequestView {
    /// The method.
    pub method: Method,
    /// The URI as it was given.
    pub uri: Seq<char>,
    /// The headers.
    pub headers: Pairs,
    /// The body.
    pub body: Seq<u8>,
}

impl View for Request {
    type V = RequestView;

    open spec fn view(&self) -> RequestView {
        RequestView {
            method: self.method,
            uri: self.uri.raw@,
            headers: self.headers.pairs(),
            body: self.body@,
        }
    }
}

impl Request {
    /// The URI is taken apart properly, and no header occurs twice.
    pub open spec fn wf(&self) -> bool {
        &&& self.uri.wf()
        &&& self.headers.wf()
        &&& self.path_params.wf()
    }

    /// A request without headers and body.
    pub fn new(method: Method, uri: &str) -> (r: Request)
        ensures
            r.wf(),
            r.method == method,
            r.uri.raw@ == uri@,
            r.headers.pairs() == Seq::<(Seq<char>, Seq<char>)>::empty(),
            r.body is Empty,
            r.path_params.pairs() == Seq::<(Seq<char>, Seq<char>)>::empty(),
    {
        Request {
            method,
            uri: Uri::parse(uri),
            headers: StringMap::new(),
            body: Body::Empty,
            path_params: StringMap::new(),
        }
    }

    /// The request with another body.
    pub fn with_body<B: IntoBody>(self, body: B) -> (r: Request)
        ensures
            r.method == self.method,
            r.uri == self.uri,
            r.headers == self.headers,
            r.path_params == self.path_params,
            r.body@ == body.body_bytes(),
            r.body.held() == body.body_block(),
    {
        Request {
            method: self.method,
            uri: self.uri,
            headers: self.headers,
            body: body.into_body(),
            path_params: self.path_params,
        }
    }

    /// Whether this is a `GET` request.
    pub fn is_get(&self) -> (r: bool)
        ensures
            r == (self.method == Method::Get),
    {
        self.method == Method::Get
    }

    /// Whether this is a `POST` request.
    pub fn is_post(&self) -> (r: bool)
        ensures
            r == (self.method == Method::Post),
    {
        self.method == Method::Post
    }

    /// A path parameter.
    pub fn path_param(&self, name: &str) -> (r: Option<&str>)
        ensures
            match lookup(self.path_params.pairs(), name@) {
                Some(v) => r matches Some(s) && s@ == v,
                None => r is None,
            },
    {
        match self.path_params.get(name) {
            Some(s) => Some(s.as_str()),
            None => None,
        }
    }

    /// The query as plain text, empty if there is none.
    pub open spec fn query_text(&self) -> Seq<char> {
        match self.uri.query {
            Some(q) => q@,
            None => Seq::empty(),
        }
    }

    /// The parameters of the query, decoded.
    pub fn query_params(&self) -> (r: StringMap)
        ensures
            r.pairs() == query_pairs(self.query_text()),
            r.wf(),
    {
        match &self.uri.query {
            Some(q) => parse_query(q.as_str()),
            None => {
                let empty: String = String::new();
                assert(empty@ =~= Seq::<char>::empty());
                parse_query(empty.as_str())
            },
        }
    }

    /// One parameter of the query, decoded.
    pub fn query_param(&self, name: &str) -> (r: Option<String>)
        ensures
            match lookup(query_pairs(self.query_text()), name@) {
                Some(v) => r matches Some(s) && s@ == v,
                None => r is None,
            },
    {
        let params: StringMap = self.query_params();
        match params.get(name) {
            Some(s) => Some(s.clone()),
            None => None,
        }
    }
}

/// A response as plain values.
#[verifier::ext_equal]
pub struct ResponseView {
    /// The status.
    pub status: u16,
    /// The headers.
    pub headers: Pairs,
    /// The body.
    pub body: Seq<u8>,
}

/// A response.
#[derive(Debug)]
pub struct Response {
    /// The status.
    pub status: u16,
    /// The headers.
    pub headers: StringMap,
    /// The body.
    pub body: Body,
}

impl View for Response {
    type V = ResponseView;

    open spec fn view(&self) -> ResponseView {
        ResponseView { status: self.status, headers: self.headers.pairs(), body: self.body@ }
    }
}

/// A response of a status and a body, without headers.
pub open spec fn plain_response(status: u16, body: Seq<u8>) -> ResponseView {
    ResponseView { status, headers: Seq::empty(), body }
}

/// The bytes of a text.
pub open spec fn text_bytes(s: Seq<char>) -> Seq<u8> {
    vstd::utf8::encode_utf8(s)
}

/// The response that carries JSON, or reports that there is none.
pub open spec fn json_response(encoded: Option<Seq<u8>>) -> ResponseView {
    match encoded {
        Some(b) => ResponseView {
            status: 200,
            headers: seq![("content-type"@, "application/json"@)],
            body: b,
        },
        None => plain_response(500, text_bytes("serialization error"@)),
    }
}

impl Response {
    /// Success, without a body.
    pub fn ok() -> (r: Response)
        ensures
            r@ == plain_response(200, Seq::empty()),
            r.headers.wf(),
            r.body is Empty,
    {
        Response { status: 200, headers: StringMap::new(), body: Body::Empty }
    }

    /// A status, without a body.
    pub fn with_status(status: u16) -> (r: Response)
        ensures
            r@ == plain_response(status, Seq::empty()),
            r.headers.wf(),
            r.body is Empty,
    {
        Response { status, headers: StringMap::new(), body: Body::Empty }
    }

    /// The response with another body.
    pub fn with_body<B: IntoBody>(self, body: B) -> (r: Response)
        ensures
            r@ == (ResponseView { body: body.body_bytes(), ..self@ }),
            r.headers == self.headers,
            r.body.held() == body.body_block(),
    {
        Response { status: self.status, headers: self.headers, body: body.into_body() }
    }

    /// The response with a header set.
    pub fn with_header(self, key: &str, value: &str) -> (r: Response)
        ensures
            r@ == (ResponseView { headers: with_pair(self@.headers, key@, value@), ..self@ }),
            self.headers.wf() ==> r.headers.wf(),
            r.body == self.body,
    {
        let mut headers: StringMap = self.headers;
        headers.insert(key.to_owned(), value.to_owned());
        Response { status: self.status, headers, body: self.body }
    }

    /// The response that carries a value as JSON. `encoded` is the JSON, or
    /// `None` if the value could not be encoded.
    pub fn json(encoded: Option<Vec<u8>>) -> (r: Response)
        ensures
            r@ == json_response(
                match encoded {
                    Some(v) => Some(v@),
                    None => None,
                },
            ),
            r.body !is Mmap,
    {
        match encoded {
            Some(bytes) => {
                let r: Response = Response::ok().with_body(bytes).with_header(
                    "content-type",
                    "application/json",
                );
                assert(r@.headers =~= seq![("content-type"@, "application/json"@)]);
                r
            },
            None => Response::with_status(500).with_body("serialization error"),
        }
    }

    /// The response for what is not there.
    pub fn not_found() -> (r: Response)
        ensures
            r@ == plain_response(404, text_bytes("not found"@)),
            r.body !is Mmap,
    {
        Response::with_status(404).with_body("not found")
    }

    /// The response to a request that makes no sense.
    pub fn bad_request(msg: &str) -> (r: Response)
        ensures
            r@ == plain_response(400, text_bytes(msg@)),
            r.body !is Mmap,
    {
        Response::with_status(400).with_body(msg)
    }

    /// The body as text, or `<binary>` if it is none.
    pub fn body_str(&self) -> (r: String)
        ensures
            r@ == (if vstd::utf8::valid_utf8(self.body@) {
                vstd::utf8::decode_utf8(self.body@)
            } else {
                "<binary>"@
            }),
    {
        let b: Vec<u8> = self.body.to_vec();
        match text_of_bytes(b.as_slice()) {
            Some(s) => s,
            None => "<binary>".to_owned(),
        }
    }
}

/// A body that was given as text reads back as that text.
pub proof fn law_text_body_reads_back(s: Seq<char>)
    ensures
        vstd::utf8::valid_utf8(text_bytes(s)),
        vstd::utf8::decode_utf8(text_bytes(s)) == s,
{
    vstd::utf8::encode_utf8_valid_utf8(s);
    vstd::utf8::encode_utf8_decode_utf8(s);
}

/// The JSON of a value, or `None` if the value could not be encoded.
#[derive(Debug)]
pub struct Json<T>(pub T);

/// What a handler may return.
pub trait IntoResponse: Sized {
    /// The response as plain values.
    spec fn as_response(self) -> ResponseView;

    /// The block that the body of the response holds on to, if there is one.
    spec fn response_block(self) -> Option<u32>;

    /// Becomes a response.
    fn into_response(self) -> (r: Response)
        ensures
            r@ == self.as_response(),
            r.body.held() == self.response_block(),
    ;
}

impl IntoResponse for Response {
    open spec fn as_response(self) -> ResponseView {
        self@
    }

    open spec fn response_block(self) -> Option<u32> {
        self.body.held()
    }

    fn into_response(self) -> (r: Response) {
        self
    }
}

impl IntoResponse for &'static str {
    open spec fn as_response(self) -> ResponseView {
        plain_response(200, text_bytes(self@))
    }

    open spec fn response_block(self) -> Option<u32> {
        None
    }

    fn into_response(self) -> (r: Response) {
        Response::ok().with_body(self)
    }
}

impl IntoResponse for String {
    open spec fn as_response(self) -> ResponseView {
        plain_response(200, text_bytes(self@))
    }

    open spec fn response_block(self) -> Option<u32> {
        None
    }

    fn into_response(self) -> (r: Response) {
        Response::ok().with_body(self)
    }
}

impl IntoResponse for Body {
    open spec fn as_response(self) -> ResponseView {
        plain_response(200, self@)
    }

    open spec fn response_block(self) -> Option<u32> {
        self.held()
    }

    fn into_response(self) -> (r: Response) {
        Response::ok().with_body(self)
    }
}

impl IntoResponse for Vec<u8> {
    open spec fn as_response(self) -> ResponseView {
        plain_response(200, self@)
    }

    open spec fn response_block(self) -> Option<u32> {
        None
    }

    fn into_response(self) -> (r: Response) {
        Response::ok().with_body(self)
    }
}

impl IntoResponse for Json<Option<Vec<u8>>> {
    open spec fn as_response(self) -> ResponseView {
        json_response(
            match self.0 {
                Some(v) => Some(v@),
                None => None,
            },
        )
    }

    open spec fn response_block(self) -> Option<u32> {
        None
    }

    fn into_response(self) -> (r: Response) {
        Response::json(self.0)
    }
}

impl IntoResponse for (u16, &'static str) {
    open spec fn as_response(self) -> ResponseView {
        plain_response(self.0, text_bytes(self.1@))
    }

    open spec fn response_block(self) -> Option<u32> {
        None
    }

    fn into_response(self) -> (r: Response) {
        Response::with_status(self.0).with_body(self.1)
    }
}

impl IntoResponse for (u16, String) {
    open spec fn as_response(self) -> ResponseView {
        plain_response(self.0, text_bytes(self.1@))
    }

    open spec fn response_block(self) -> Option<u32> {
        None
    }

    fn into_response(self) -> (r: Response) {
        Response::with_status(self.0).with_body(self.1)
    }
}

impl<R: IntoResponse, E: IntoResponse> IntoResponse for Result<R, E> {
    open spec fn as_response(self) -> ResponseView {
        match self {
            Ok(r) => r.as_response(),
            Err(e) => e.as_response(),
        }
    }

    open spec fn response_block(self) -> Option<u32> {
        match self {
            Ok(r) => r.response_block(),
            Err(e) => e.response_block(),
        }
    }

    fn into_response(self) -> (r: Response) {
        match self {
            Ok(r) => r.into_response(),
            Err(e) => e.into_response(),
        }
    }
}

/// The value of a hexadecimal digit.
pub open spec fn hex_digit(b: u8) -> Option<u8> {
    if 48 <= b <= 57 {
        Some((b - 48) as u8)
    } else if 97 <= b <= 102 {
        Some((b - 87) as u8)
    } else if 65 <= b <= 70 {
        Some((b - 55) as u8)
    } else {
        None
    }
}

fn hex_val(b: u8) -> (r: Option<u8>)
    ensures
        r == hex_digit(b),
{
    if b >= 48 && b <= 57 {
        Some(b - 48)
    } else if b >= 97 && b <= 102 {
        Some(b - 87)
    } else if b >= 65 && b <= 70 {
        Some(b - 55)
    } else {
        None
    }
}

/// Some bytes, from `i` on, with their escapes resolved: `%` and two
/// hexadecimal digits stand for a byte, `+` for a space. Anything else, a `%`
/// without two digits included, stands for itself.
pub open spec fn unescaped(b: Seq<u8>, i: int) -> Seq<u8>
    decreases b.len() - i,
{
    if i < 0 || i >= b.len() {
        Seq::empty()
    } else if b[i] == 37 && i + 2 < b.len() && hex_digit(b[i + 1]) is Some && hex_digit(b[i + 2])
        is Some {
        seq![(hex_digit(b[i + 1])->0 * 16 + hex_digit(b[i + 2])->0) as u8] + unescaped(b, i + 3)
    } else if b[i] == 43 {
        seq![32u8] + unescaped(b, i + 1)
    } else {
        seq![b[i]] + unescaped(b, i + 1)
    }
}

/// A text with its escapes resolved.
pub open spec fn decoded(s: Seq<char>) -> Seq<char> {
    text::shown_text(unescaped(vstd::utf8::encode_utf8(s), 0))
}

/// Resolves the escapes of a text.
pub fn percent_decode(s: &str) -> (r: String)
    ensures
        r@ == decoded(s@),
{
    let b: &[u8] = bytes_of(s);
    let mut out: Vec<u8> = Vec::new();
    let mut i: usize = 0;
    assert(out@ + unescaped(b@, 0) =~= unescaped(b@, 0));
    while i < b.len()
        invariant
            i <= b@.len(),
            out@ + unescaped(b@, i as int) == unescaped(b@, 0),
        decreases b@.len() - i,
    {
        let ghost before = out@;
        let n: usize = b.len();
        let mut pair: Option<u8> = None;
        if b[i] == 37 && n - i > 2 {
            if let (Some(h), Some(l)) = (hex_val(b[i + 1]), hex_val(b[i + 2])) {
                pair = Some(h * 16 + l);
            }
        }
        match pair {
            Some(v) => {
                out.push(v);
                assert(out@ + unescaped(b@, i + 3) =~= before + unescaped(b@, i as int));
                i = i + 3;
            },
            None => {
                if b[i] == 43 {
                    out.push(32);
                } else {
                    out.push(b[i]);
                }
                assert(out@ + unescaped(b@, i + 1) =~= before + unescaped(b@, i as int));
                i = i + 1;
            },
        }
    }
    assert(out@ =~= unescaped(b@, 0));
    text_of_bytes_lossy(out.as_slice())
}

/// A text without `%` and `+` decodes to itself.
pub proof fn law_decode_leaves_plain_text(s: Seq<char>)
    requires
        forall|i: int|
            0 <= i < vstd::utf8::encode_utf8(s).len() ==> #[trigger] vstd::utf8::encode_utf8(s)[i]
                != 37 && vstd::utf8::encode_utf8(s)[i] != 43,
    ensures
        decoded(s) == s,
{
    let b = vstd::utf8::encode_utf8(s);
    lemma_plain(b, 0);
    assert(b.subrange(0, b.len() as int) =~= b);
    vstd::utf8::encode_utf8_valid_utf8(s);
    vstd::utf8::encode_utf8_decode_utf8(s);
}

proof fn lemma_plain(b: Seq<u8>, i: int)
    requires
        0 <= i <= b.len(),
        forall|j: int| 0 <= j < b.len() ==> #[trigger] b[j] != 37 && b[j] != 43,
    ensures
        unescaped(b, i) == b.subrange(i, b.len() as int),
    decreases b.len() - i,
{
    if i < b.len() {
        lemma_plain(b, i + 1);
        assert(seq![b[i]] + b.subrange(i + 1, b.len() as int) =~= b.subrange(i, b.len() as int));
    } else {
        assert(unescaped(b, i) =~= b.subrange(i, b.len() as int));
    }
}

/// Key and value of one piece of a query: what is before and behind the first
/// `=`, decoded. Without one the value is empty.
pub open spec fn query_pair(piece: Seq<char>) -> (Seq<char>, Seq<char>) {
    match text::find_char(piece, '=', 0) {
        Some(i) => (
            decoded(piece.subrange(0, i)),
            decoded(piece.subrange(i + 1, piece.len() as int)),
        ),
        None => (decoded(piece), decoded(Seq::empty())),
    }
}

/// The pairs of the first `n` pieces of a query. Empty pieces count for
/// nothing, and of several values of one key the last one counts.
pub open spec fn pairs_of(pieces: Seq<Seq<char>>, n: nat) -> Pairs
    decreases n,
{
    if n == 0 {
        Seq::empty()
    } else {
        let before = pairs_of(pieces, (n - 1) as nat);
        let piece = pieces[n - 1];
        if piece.len() == 0 {
            before
        } else {
            with_pair(before, query_pair(piece).0, query_pair(piece).1)
        }
    }
}

/// The pairs of a query.
pub open spec fn query_pairs(query: Seq<char>) -> Pairs {
    let pieces = text::split(query, '&');
    pairs_of(pieces, pieces.len())
}

/// Takes one piece of a query apart.
fn split_pair(piece: &str) -> (r: (String, String))
    ensures
        (r.0@, r.1@) == query_pair(piece@),
{
    let c: Vec<char> = chars_of(piece);
    let n: usize = c.len();
    match char_at_or_after(c.as_slice(), '=', 0) {
        Some(i) => {
            let key: String = text_range(c.as_slice(), 0, i);
            let value: String = text_range(c.as_slice(), i + 1, n);
            (percent_decode(key.as_str()), percent_decode(value.as_str()))
        },
        None => {
            let empty: String = String::new();
            assert(empty@ =~= Seq::<char>::empty());
            (percent_decode(piece), percent_decode(empty.as_str()))
        },
    }
}

/// Reads the pairs of a query.
pub fn parse_query(query: &str) -> (r: StringMap)
    ensures
        r.pairs() == query_pairs(query@),
        r.wf(),
{
    let pieces: Vec<String> = split_text(query, '&');
    let ghost t = text::split(query@, '&');
    let mut map: StringMap = StringMap::new();
    let mut i: usize = 0;
    while i < pieces.len()
        invariant
            i <= pieces@.len(),
            t == text::split(query@, '&'),
            text::texts(pieces@) == t,
            map.pairs() == pairs_of(t, i as nat),
            map.wf(),
        decreases pieces@.len() - i,
    {
        let piece: &str = pieces[i].as_str();
        assert(piece@ == text::texts(pieces@)[i as int]);
        if !piece.is_empty() {
            let (key, value) = split_pair(piece);
            map.insert(key, value);
        }
        i = i + 1;
    }
    map
}

} // verus!
