//! Names and identifiers: tables, tablets, write sources.
use crate::text;
use vstd::prelude::*;
use vstd::string::*;

verus! {

/// The longest table name.
pub const MAX_NAME_LEN: usize = 64;

/// `c` is an ASCII letter or an underscore.
pub open spec fn starts_name(c: char) -> bool {
    let n = c as int;
    n == 95 || 65 <= n <= 90 || 97 <= n <= 122
}

/// `c` is an ASCII letter, a digit or an underscore.
pub open spec fn continues_name(c: char) -> bool {
    starts_name(c) || text::is_digit(c)
}

/// `s` is a table name: at most 64 ASCII letters, digits and underscores, not
/// starting with a digit, not all of them underscores.
pub open spec fn is_table_name(s: Seq<char>) -> bool {
    &&& 1 <= s.len() <= MAX_NAME_LEN
    &&& starts_name(s[0])
    &&& forall|i: int| 0 <= i < s.len() ==> continues_name(#[trigger] s[i])
    &&& exists|i: int| 0 <= i < s.len() && #[trigger] s[i] != '_'
}

/// `s` names a system table: it starts with an underscore.
pub open spec fn is_system_name(s: Seq<char>) -> bool {
    s.len() > 0 && s[0] == '_'
}

fn name_start(c: char) -> (r: bool)
    ensures
        r == starts_name(c),
{
    let n: u32 = c as u32;
    n == 95 || (65 <= n && n <= 90) || (97 <= n && n <= 122)
}

fn name_rest(c: char) -> (r: bool)
    ensures
        r == continues_name(c),
{
    let n: u32 = c as u32;
    name_start(c) || (48 <= n && n <= 57)
}

/// The name of a table.
#[derive(Debug)]
pub struct TableName {
    name: String,
}

impl View for TableName {
    type V = Seq<char>;

    closed spec fn view(&self) -> Seq<char> {
        self.name@
    }
}

impl TableName {
    #[verifier::type_invariant]
    spec fn is_valid(self) -> bool {
        is_table_name(self.name@)
    }

    /// The text is a table name.
    pub fn check(&self)
        ensures
            is_table_name(self@),
    {
        proof {
            use_type_invariant(self);
        }
    }

    /// Reads a table name.
    pub fn parse(s: &str) -> (r: Option<Self>)
        ensures
            r is Some == is_table_name(s@),
            r matches Some(t) ==> t@ == s@,
    {
        let c: Vec<char> = text::chars_of(s);
        if c.len() == 0 || c.len() > MAX_NAME_LEN || !name_start(c[0]) {
            return None;
        }
        let mut only_underscores: bool = true;
        let mut i: usize = 0;
        while i < c.len()
            invariant
                i <= c.len(),
                c@ == s@,
                forall|j: int| 0 <= j < i ==> continues_name(#[trigger] s@[j]),
                only_underscores == forall|j: int| 0 <= j < i ==> #[trigger] s@[j] == '_',
            decreases c.len() - i,
        {
            if !name_rest(c[i]) {
                assert(!continues_name(s@[i as int]));
                return None;
            }
            if c[i] != '_' {
                assert(s@[i as int] != '_');
                only_underscores = false;
            }
            i = i + 1;
        }
        if only_underscores {
            return None;
        }
        Some(TableName { name: s.to_owned() })
    }

    pub fn as_str(&self) -> (r: &str)
        ensures
            r@ == self@,
    {
        self.name.as_str()
    }

    /// Whether this is a system table.
    pub fn is_system(&self) -> (r: bool)
        ensures
            r == is_system_name(self@),
    {
        starts_with_underscore(self.name.as_str())
    }

    /// Another copy of the name.
    pub fn copy(&self) -> (r: Self)
        ensures
            r@ == self@,
    {
        proof {
            use_type_invariant(self);
        }
        TableName { name: self.name.as_str().to_owned() }
    }
}

/// Whether `s` starts with an underscore.
pub fn starts_with_underscore(s: &str) -> (r: bool)
    ensures
        r == is_system_name(s@),
{
    let c: Vec<char> = text::chars_of(s);
    c.len() > 0 && c[0] == '_'
}

/// Where a write comes from: the name of the operation, if it is known.
#[derive(Debug)]
pub struct WriteSource {
    source: Option<String>,
}

impl View for WriteSource {
    type V = Option<Seq<char>>;

    closed spec fn view(&self) -> Option<Seq<char>> {
        match self.source {
            Some(s) => Some(s@),
            None => None,
        }
    }
}

impl WriteSource {
    pub fn new(source: &str) -> (r: Self)
        ensures
            r@ == Some(source@),
    {
        WriteSource { source: Some(source.to_owned()) }
    }

    pub fn unknown() -> (r: Self)
        ensures
            r@ is None,
    {
        WriteSource { source: None }
    }

    pub fn as_str(&self) -> (r: Option<&str>)
        ensures
            match r {
                Some(s) => self@ == Some(s@),
                None => self@ is None,
            },
    {
        match &self.source {
            Some(s) => Some(s.as_str()),
            None => None,
        }
    }

    /// Another copy of the source.
    pub fn copy(&self) -> (r: Self)
        ensures
            r@ == self@,
    {
        match &self.source {
            Some(s) => WriteSource { source: Some(s.as_str().to_owned()) },
            None => WriteSource { source: None },
        }
    }
}

/// Identifies a table on one node: sixteen bytes, most significant first.
#[derive(Clone, Copy, Debug, PartialEq, Eq, PartialOrd, Ord, Hash, Structural)]
pub struct TabletId(pub u128);

/// The number that `bytes` denote, most significant first.
pub open spec fn big_endian(bytes: Seq<u8>) -> nat
    decreases bytes.len(),
{
    if bytes.len() == 0 {
        0
    } else {
        big_endian(bytes.drop_last()) * 256 + bytes.last() as nat
    }
}

/// The `len` lowest bytes of `n`, most significant first.
pub open spec fn bytes_of(n: nat, len: nat) -> Seq<u8>
    decreases len,
{
    if len == 0 {
        seq![]
    } else {
        bytes_of(n / 256, (len - 1) as nat).push((n % 256) as u8)
    }
}

/// A bound for numbers of `len` bytes.
pub open spec fn byte_range(len: nat) -> nat
    decreases len,
{
    if len == 0 {
        1
    } else {
        byte_range((len - 1) as nat) * 256
    }
}

proof fn lemma_big_endian_bound(bytes: Seq<u8>)
    ensures
        big_endian(bytes) < byte_range(bytes.len()),
    decreases bytes.len(),
{
    if bytes.len() > 0 {
        lemma_big_endian_bound(bytes.drop_last());
    }
}

proof fn lemma_sixteen_bytes()
    ensures
        byte_range(16) == u128::MAX + 1,
{
    reveal_with_fuel(byte_range, 17);
}

/// Writing bytes and reading them back gives the number.
pub proof fn lemma_bytes_round_trip(n: nat, len: nat)
    requires
        n < byte_range(len),
    ensures
        bytes_of(n, len).len() == len,
        big_endian(bytes_of(n, len)) == n,
    decreases len,
{
    if len > 0 {
        lemma_bytes_round_trip(n / 256, (len - 1) as nat);
        assert(bytes_of(n, len).drop_last() =~= bytes_of(n / 256, (len - 1) as nat));
    }
}

/// The sixteen bytes of a tablet denote the tablet.
pub proof fn lemma_tablet_bytes(tablet: u128)
    ensures
        bytes_of(tablet as nat, 16).len() == 16,
        big_endian(bytes_of(tablet as nat, 16)) == tablet,
{
    lemma_sixteen_bytes();
    lemma_bytes_round_trip(tablet as nat, 16);
}

impl TabletId {
    /// The identifier as sixteen bytes.
    pub fn to_bytes(self) -> (r: Vec<u8>)
        ensures
            r@ == bytes_of(self.0 as nat, 16),
            r@.len() == 16,
    {
        let mut low: Vec<u8> = Vec::new();
        let mut n: u128 = self.0;
        let mut i: usize = 0;
        let ghost all = bytes_of(self.0 as nat, 16);
        proof {
            lemma_sixteen_bytes();
            lemma_bytes_round_trip(self.0 as nat, 16);
        }
        while i < 16
            invariant
                i <= 16,
                low@.len() == i,
                all.len() == 16,
                bytes_of(n as nat, (16 - i) as nat) == all.take(16 - i),
                forall|j: int| 0 <= j < i ==> #[trigger] low@[j] == all[15 - j],
            decreases 16 - i,
        {
            proof {
                let cur = bytes_of(n as nat, (16 - i) as nat);
                assert(cur.last() == (n % 256) as u8);
                assert(cur.drop_last() =~= bytes_of((n / 256) as nat, (15 - i) as nat));
                assert(all.take(16 - i).last() == all[15 - i]);
                assert(all.take(16 - i).drop_last() =~= all.take(15 - i));
            }
            low.push((n % 256) as u8);
            n = n / 256;
            i = i + 1;
        }
        let mut r: Vec<u8> = Vec::new();
        let mut k: usize = 16;
        while k > 0
            invariant
                k <= 16,
                low@.len() == 16,
                all.len() == 16,
                forall|j: int| 0 <= j < 16 ==> #[trigger] low@[j] == all[15 - j],
                r@ == all.take(16 - k),
            decreases k,
        {
            k = k - 1;
            r.push(low[k]);
            assert(all.take(16 - k) =~= all.take(15 - k).push(all[15 - k]));
        }
        assert(all.take(16) =~= all);
        r
    }

    /// The identifier that sixteen bytes denote.
    pub fn from_bytes(bytes: &Vec<u8>) -> (r: Option<Self>)
        ensures
            r is Some == (bytes@.len() == 16),
            r matches Some(t) ==> t.0 == big_endian(bytes@),
    {
        if bytes.len() != 16 {
            return None;
        }
        let mut n: u128 = 0;
        let mut i: usize = 0;
        assert(bytes@.take(0) =~= seq![]);
        while i < 16
            invariant
                i <= 16,
                bytes@.len() == 16,
                n == big_endian(bytes@.take(i as int)),
            decreases 16 - i,
        {
            proof {
                let longer = bytes@.take(i + 1);
                assert(longer.drop_last() =~= bytes@.take(i as int));
                lemma_big_endian_bound(longer);
                lemma_range_grows((i + 1) as nat, 16);
                lemma_sixteen_bytes();
            }
            n = n * 256 + bytes[i] as u128;
            i = i + 1;
        }
        assert(bytes@.take(16) =~= bytes@);
        Some(TabletId(n))
    }
}

proof fn lemma_range_grows(a: nat, b: nat)
    requires
        a <= b,
    ensures
        byte_range(a) <= byte_range(b),
    decreases b,
{
    if a < b {
        lemma_range_grows(a, (b - 1) as nat);
    }
}

/// A name is that of a system table exactly where its first character is an
/// underscore.
pub proof fn system_names_start_with_an_underscore(c: char, rest: Seq<char>)
    ensures
        is_system_name(seq![c] + rest) <==> c == '_',
        !is_system_name(Seq::empty()),
{
}

/// A table name is made of letters, digits and underscores, starts with no digit, is
/// not too long and does not consist of underscores; any such text is one.
pub proof fn table_names_are_words(s: Seq<char>)
    ensures
        is_table_name(s) <==> {
            &&& 1 <= s.len() <= 64
            &&& !('0' <= s[0] <= '9')
            &&& forall|i: int|
                0 <= i < s.len() ==> 'a' <= (#[trigger] s[i]) <= 'z' || 'A' <= s[i] <= 'Z' || '0'
                    <= s[i] <= '9' || s[i] == '_'
            &&& exists|i: int| 0 <= i < s.len() && (#[trigger] s[i]) != '_'
        },
{
    if 1 <= s.len() {
        assert(s[0] == s[0]);
    }
}

/// The bytes of an id follow one another from the most significant on.
pub proof fn bytes_are_in_order(n: nat, b: u8, len: nat, bytes: Seq<u8>)
    ensures
        bytes_of(n, 0).len() == 0,
        bytes_of(256 * n + b as nat, len + 1) == bytes_of(n, len).push(b),
        big_endian(Seq::empty()) == 0,
        big_endian(bytes.push(b)) == 256 * big_endian(bytes) + b,
{
    assert((256 * n + b as nat) / 256 == n);
    assert((256 * n + b as nat) % 256 == b as nat);
    assert(bytes.push(b).drop_last() == bytes);
}

} // verus!
