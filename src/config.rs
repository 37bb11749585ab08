use vstd::prelude::*;
use vstd::std_specs::iter::IteratorSpec;

verus! {

/// The settings as plain values: library roots, background, text, primary and
/// secondary colours, and the constrained-resource flag.
pub type Settings = (Seq<Seq<char>>, u32, u32, u32, u32, bool);

/// The settings of the gallery, read from and written to a `key;value` text.
pub struct Config {
    pub libraries: Vec<String>,
    pub background_color: u32,
    pub text_color: u32,
    pub primary_color: u32,
    pub secondary_color: u32,
    pub pico: bool,
}

impl Config {
    pub open spec fn settings(&self) -> Settings {
        (
            self.libraries@.map_values(|s: String| s@),
            self.background_color,
            self.text_color,
            self.primary_color,
            self.secondary_color,
            self.pico,
        )
    }
}

/// The settings used where no text has been read: the `Pictures` root, dark
/// grey background, light text and primary colour, mid grey secondary colour,
/// the flag unset.
pub open spec fn default_settings() -> Settings {
    (
        seq![seq!['P', 'i', 'c', 't', 'u', 'r', 'e', 's']],
        0xFF1A_1A1A,
        0xFFEE_EEEE,
        0xFFEE_EEEE,
        0xFF4B_4B4B,
        false,
    )
}

pub open spec fn key_library() -> Seq<char> {
    seq!['l', 'i', 'b', 'r', 'a', 'r', 'y']
}

pub open spec fn key_background() -> Seq<char> {
    seq!['b', 'a', 'c', 'k', 'g', 'r', 'o', 'u', 'n', 'd', '_', 'c', 'o', 'l', 'o', 'r']
}

pub open spec fn key_text() -> Seq<char> {
    seq!['t', 'e', 'x', 't', '_', 'c', 'o', 'l', 'o', 'r']
}

pub open spec fn key_primary() -> Seq<char> {
    seq!['p', 'r', 'i', 'm', 'a', 'r', 'y', '_', 'c', 'o', 'l', 'o', 'r']
}

pub open spec fn key_secondary() -> Seq<char> {
    seq!['s', 'e', 'c', 'o', 'n', 'd', 'a', 'r', 'y', '_', 'c', 'o', 'l', 'o', 'r']
}

pub open spec fn key_pico() -> Seq<char> {
    seq!['p', 'i', 'c', 'o']
}

/// Value of a hexadecimal digit, either case; -1 for any other character.
pub open spec fn hex_digit(c: char) -> int {
    if '0' <= c && c <= '9' {
        c as int - '0' as int
    } else if 'a' <= c && c <= 'f' {
        c as int - 'a' as int + 10
    } else if 'A' <= c && c <= 'F' {
        c as int - 'A' as int + 10
    } else {
        -1
    }
}

pub open spec fn all_hex(s: Seq<char>) -> bool {
    forall|i: int| 0 <= i < s.len() ==> #[trigger] hex_digit(s[i]) >= 0
}

pub open spec fn hex_value(s: Seq<char>) -> int
    decreases s.len(),
{
    if s.len() == 0 {
        0
    } else {
        hex_value(s.drop_last()) * 16 + hex_digit(s.last())
    }
}

/// A `u32` written as hexadecimal digits alone: `None` when there are no
/// digits, a character is not a digit (a sign included), or the value
/// overflows.
pub open spec fn parse_hex(s: Seq<char>) -> Option<u32> {
    if s.len() == 0 || !all_hex(s) || hex_value(s) > u32::MAX {
        None
    } else {
        Some(hex_value(s) as u32)
    }
}

/// Upper-case digit of a value below sixteen.
pub open spec fn upper_digit(v: int) -> char {
    if v < 10 {
        ('0' as int + v) as char
    } else {
        ('A' as int + v - 10) as char
    }
}

/// `v` in upper-case hexadecimal without leading zeros.
pub open spec fn hex_digits(v: nat) -> Seq<char>
    decreases v,
{
    if v < 16 {
        seq![upper_digit(v as int)]
    } else {
        hex_digits(v / 16).push(upper_digit((v % 16) as int))
    }
}

/// Index of the first `c` in `s`, or `s.len()` when there is none.
pub open spec fn find(s: Seq<char>, c: char) -> int
    decreases s.len(),
{
    if s.len() == 0 {
        0
    } else if s[0] == c {
        0
    } else {
        1 + find(s.drop_first(), c)
    }
}

/// The first line of `t` and what follows its line break.
pub open spec fn split_line(t: Seq<char>) -> (Seq<char>, Seq<char>) {
    let n = find(t, '\n');
    if n < t.len() {
        (t.take(n), t.skip(n + 1))
    } else {
        (t, Seq::empty())
    }
}

pub open spec fn strip_cr(l: Seq<char>) -> Seq<char> {
    if l.len() > 0 && l.last() == '\r' {
        l.drop_last()
    } else {
        l
    }
}

/// A colour value: `#` followed by hexadecimal digits (`#RRGGBB`,
/// `#AARRGGBB`); anything else keeps `old_value`.
pub open spec fn color_value(v: Seq<char>, old_value: u32) -> u32 {
    if v.len() > 0 && v[0] == '#' && parse_hex(v.drop_first()) is Some {
        parse_hex(v.drop_first())->0
    } else {
        old_value
    }
}

/// The settings after one line of the text; a line without `;`, with an
/// unknown key or with a malformed colour changes nothing.
pub open spec fn apply_line(m: Settings, l: Seq<char>) -> Settings {
    let p = find(l, ';');
    if p >= l.len() {
        m
    } else {
        let key = l.take(p);
        let v = l.skip(p + 1);
        if key == key_library() {
            (m.0.push(v), m.1, m.2, m.3, m.4, m.5)
        } else if key == key_background() {
            (m.0, color_value(v, m.1), m.2, m.3, m.4, m.5)
        } else if key == key_text() {
            (m.0, m.1, color_value(v, m.2), m.3, m.4, m.5)
        } else if key == key_primary() {
            (m.0, m.1, m.2, color_value(v, m.3), m.4, m.5)
        } else if key == key_secondary() {
            (m.0, m.1, m.2, m.3, color_value(v, m.4), m.5)
        } else if key == key_pico() {
            (m.0, m.1, m.2, m.3, m.4, true)
        } else {
            m
        }
    }
}

/// The settings after each line of `t` in turn.
#[verifier::opaque]
pub open spec fn apply_text(m: Settings, t: Seq<char>) -> Settings
    decreases t.len(),
{
    if t.len() == 0 {
        m
    } else {
        let (l, rest) = split_line(t);
        if rest.len() < t.len() {
            apply_text(apply_line(m, strip_cr(l)), rest)
        } else {
            apply_line(m, strip_cr(l))
        }
    }
}


} // verus!

verus! {

pub open spec fn color_line(key: Seq<char>, v: u32) -> Seq<char> {
    key + seq![';', '#'] + hex_digits(v as nat) + seq!['\n']
}

pub open spec fn library_lines(libs: Seq<Seq<char>>) -> Seq<char>
    decreases libs.len(),
{
    if libs.len() == 0 {
        Seq::empty()
    } else {
        library_lines(libs.drop_last()) + key_library() + seq![';'] + libs.last() + seq!['\n']
    }
}

/// The text that stores the settings `m`: a `library` line per root, a line per
/// colour in upper-case hexadecimal after `#`, and a `pico` line when it is set.
pub open spec fn render(m: Settings) -> Seq<char> {
    library_lines(m.0) + color_line(key_background(), m.1) + color_line(key_text(), m.2)
        + color_line(key_primary(), m.3) + color_line(key_secondary(), m.4) + if m.5 {
        key_pico() + seq![';', '\n']
    } else {
        Seq::empty()
    }
}

/// Relies on `String::push`: it appends one character.
#[verifier::external_body]
fn push_char(s: &mut String, c: char)
    ensures
        final(s)@ == old(s)@.push(c),
{
    s.push(c);
}

fn push_chars(s: &mut String, cs: &Vec<char>)
    ensures
        final(s)@ == old(s)@ + cs@,
{
    let mut i: usize = 0;
    while i < cs.len()
        invariant
            i <= cs@.len(),
            s@ == old(s)@ + cs@.take(i as int),
        decreases cs@.len() - i,
    {
        assert(cs@.take(i as int + 1) =~= cs@.take(i as int).push(cs@[i as int]));
        push_char(s, cs[i]);
        i = i + 1;
    }
    assert(cs@.take(cs@.len() as int) =~= cs@);
}

/// The characters of `text`.
fn chars_of(text: &str) -> (r: Vec<char>)
    ensures
        r@ == text@,
{
    broadcast use vstd::string::axiom_spec_iter, vstd::string::next_postcondition;

    let mut it = text.chars();
    let mut r: Vec<char> = Vec::new();
    loop
        invariant
            r@ + it.remaining() == text@,
            it.obeys_prophetic_iter_laws(),
            it.decrease() is Some,
        decreases it.decrease()->0,
    {
        match it.next() {
            Some(c) => {
                r.push(c);
            },
            None => {
                assert(it.remaining().len() == 0);
                assert(r@ =~= text@);
                return r;
            },
        }
    }
}

fn upper_digit_exec(v: u32) -> (c: char)
    requires
        v < 16,
    ensures
        c == upper_digit(v as int),
{
    if v < 10 {
        (48u8 + v as u8) as char
    } else {
        (65u8 + (v as u8 - 10)) as char
    }
}

fn push_hex(s: &mut String, v: u32)
    ensures
        final(s)@ == old(s)@ + hex_digits(v as nat),
    decreases v,
{
    if v >= 16 {
        push_hex(s, v / 16);
    }
    let c = upper_digit_exec(v % 16);
    push_char(s, c);
    assert(s@ =~= old(s)@ + hex_digits(v as nat));
}

} // verus!

verus! {

proof fn lemma_find(s: Seq<char>, c: char, k: int)
    requires
        0 <= k <= s.len(),
        forall|m: int| 0 <= m < k ==> s[m] != c,
        k < s.len() ==> s[k] == c,
    ensures
        find(s, c) == k,
    decreases s.len(),
{
    if s.len() > 0 && k > 0 {
        lemma_find(s.drop_first(), c, k - 1);
    }
}

/// First index at or after `from` that holds `c`, or the length.
fn find_from(t: &Vec<char>, from: usize, c: char) -> (j: usize)
    requires
        from <= t@.len(),
    ensures
        from <= j <= t@.len(),
        forall|m: int| from <= m < j ==> t@[m] != c,
        j < t@.len() ==> t@[j as int] == c,
{
    let mut j: usize = from;
    while j < t.len() && t[j] != c
        invariant
            from <= j <= t@.len(),
            forall|m: int| from <= m < j ==> t@[m] != c,
        decreases t@.len() - j,
    {
        j = j + 1;
    }
    j
}

fn slice_of(t: &Vec<char>, a: usize, b: usize) -> (r: Vec<char>)
    requires
        a <= b <= t@.len(),
    ensures
        r@ == t@.subrange(a as int, b as int),
{
    let mut r: Vec<char> = Vec::new();
    let mut i: usize = a;
    while i < b
        invariant
            a <= i <= b,
            b <= t@.len(),
            r@ == t@.subrange(a as int, i as int),
        decreases b - i,
    {
        r.push(t[i]);
        i = i + 1;
        assert(r@ =~= t@.subrange(a as int, i as int));
    }
    r
}

fn eq_chars(a: &Vec<char>, b: &Vec<char>) -> (r: bool)
    ensures
        r == (a@ == b@),
{
    if a.len() != b.len() {
        return false;
    }
    let mut i: usize = 0;
    while i < a.len()
        invariant
            a@.len() == b@.len(),
            i <= a@.len(),
            forall|m: int| 0 <= m < i ==> a@[m] == b@[m],
        decreases a@.len() - i,
    {
        if a[i] != b[i] {
            return false;
        }
        i = i + 1;
    }
    assert(a@ =~= b@);
    true
}

fn string_of(cs: &Vec<char>) -> (r: String)
    ensures
        r@ == cs@,
{
    let mut s = String::new();
    push_chars(&mut s, cs);
    assert(s@ =~= cs@);
    s
}

fn hex_digit_exec(c: char) -> (r: i32)
    ensures
        r == hex_digit(c),
{
    if '0' <= c && c <= '9' {
        (c as u32 - '0' as u32) as i32
    } else if 'a' <= c && c <= 'f' {
        (c as u32 - 'a' as u32 + 10) as i32
    } else if 'A' <= c && c <= 'F' {
        (c as u32 - 'A' as u32 + 10) as i32
    } else {
        -1
    }
}

/// Reads a `u32` written as hexadecimal digits alone.
pub fn parse_hex_exec(s: &Vec<char>) -> (r: Option<u32>)
    ensures
        r == parse_hex(s@),
{
    if s.len() == 0 {
        return None;
    }
    let cap: u64 = 0x1_0000_0000;
    let mut acc: u64 = 0;
    let mut i: usize = 0;
    while i < s.len()
        invariant
            i <= s@.len(),
            acc == if hex_value(s@.take(i as int)) < cap {
                hex_value(s@.take(i as int))
            } else {
                cap as int
            },
            all_hex(s@.take(i as int)),
            cap == 0x1_0000_0000,
        decreases s@.len() - i,
    {
        let v = hex_digit_exec(s[i]);
        if v < 0 {
            assert(hex_digit(s@[i as int]) < 0);
            assert(!all_hex(s@));
            return None;
        }
        assert(s@.take(i + 1).drop_last() =~= s@.take(i as int));
        assert(s@.take(i + 1).last() == s@[i as int]);
        proof {
            lemma_hex_value_nonneg(s@.take(i as int));
        }
        let next: u64 = acc * 16 + v as u64;
        acc = if next < cap {
            next
        } else {
            cap
        };
        assert forall|m: int| 0 <= m < s@.take(i + 1).len() implies #[trigger] hex_digit(
            s@.take(i + 1)[m],
        ) >= 0 by {
            if m < i {
                assert(s@.take(i + 1)[m] == s@.take(i as int)[m]);
            }
        }
        i = i + 1;
    }
    assert(s@.take(s@.len() as int) =~= s@);
    if acc == cap {
        None
    } else {
        Some(acc as u32)
    }
}

proof fn lemma_hex_value_nonneg(s: Seq<char>)
    requires
        all_hex(s),
    ensures
        hex_value(s) >= 0,
    decreases s.len(),
{
    if s.len() > 0 {
        assert(hex_digit(s[s.len() - 1]) >= 0);
        assert forall|m: int| 0 <= m < s.drop_last().len() implies #[trigger] hex_digit(
            s.drop_last()[m],
        ) >= 0 by {
            assert(s.drop_last()[m] == s[m]);
        }
        lemma_hex_value_nonneg(s.drop_last());
    }
}

} // verus!

verus! {

fn color_value_exec(v: &Vec<char>, old_value: u32) -> (r: u32)
    ensures
        r == color_value(v@, old_value),
{
    if v.len() == 0 || v[0] != '#' {
        return old_value;
    }
    let rest = slice_of(v, 1, v.len());
    assert(rest@ =~= v@.drop_first());
    match parse_hex_exec(&rest) {
        Some(x) => x,
        None => old_value,
    }
}

impl Default for Config {
    /// The settings used where no text has been read.
    fn default() -> (r: Config)
        ensures
            r.settings() == default_settings(),
    {
        let name = chars_of("Pictures");
        proof {
            reveal_strlit("Pictures");
            assert(name@ =~= seq!['P', 'i', 'c', 't', 'u', 'r', 'e', 's']);
        }
        let mut libraries: Vec<String> = Vec::new();
        libraries.push(string_of(&name));
        let r = Config {
            libraries,
            background_color: 0xFF1A_1A1A,
            text_color: 0xFFEE_EEEE,
            primary_color: 0xFFEE_EEEE,
            secondary_color: 0xFF4B_4B4B,
            pico: false,
        };
        assert(r.settings().0[0] == name@);
        assert(r.settings().0 =~= seq![seq!['P', 'i', 'c', 't', 'u', 'r', 'e', 's']]);
        assert(r.settings() == default_settings());
        r
    }
}

impl Config {
    /// Applies one line of a settings text.
    fn apply_line(&mut self, l: &Vec<char>)
        ensures
            final(self).settings() == apply_line(old(self).settings(), l@),
    {
        let p = find_from(l, 0, ';');
        proof {
            lemma_find(l@, ';', p as int);
        }
        if p == l.len() {
            return;
        }
        let key = slice_of(l, 0, p);
        let v = slice_of(l, p + 1, l.len());
        assert(key@ =~= l@.take(p as int));
        assert(v@ =~= l@.skip(p + 1));
        let k_library = chars_of("library");
        let k_background = chars_of("background_color");
        let k_text = chars_of("text_color");
        let k_primary = chars_of("primary_color");
        let k_secondary = chars_of("secondary_color");
        let k_pico = chars_of("pico");
        proof {
            reveal_strlit("library");
            reveal_strlit("background_color");
            reveal_strlit("text_color");
            reveal_strlit("primary_color");
            reveal_strlit("secondary_color");
            reveal_strlit("pico");
            assert(k_library@ =~= key_library());
            assert(k_background@ =~= key_background());
            assert(k_text@ =~= key_text());
            assert(k_primary@ =~= key_primary());
            assert(k_secondary@ =~= key_secondary());
            assert(k_pico@ =~= key_pico());
        }
        if eq_chars(&key, &k_library) {
            let name = string_of(&v);
            self.libraries.push(name);
            assert(self.settings().0 =~= old(self).settings().0.push(v@));
        } else if eq_chars(&key, &k_background) {
            self.background_color = color_value_exec(&v, self.background_color);
        } else if eq_chars(&key, &k_text) {
            self.text_color = color_value_exec(&v, self.text_color);
        } else if eq_chars(&key, &k_primary) {
            self.primary_color = color_value_exec(&v, self.primary_color);
        } else if eq_chars(&key, &k_secondary) {
            self.secondary_color = color_value_exec(&v, self.secondary_color);
        } else if eq_chars(&key, &k_pico) {
            self.pico = true;
        }
    }

    /// Reads a settings text: the library roots are replaced by the `library`
    /// lines, in order; each other known key overrides its value; malformed
    /// lines change nothing.
    pub fn load_str(&mut self, text: &str)
        ensures
            final(self).settings() == apply_text(
                (
                    Seq::empty(),
                    old(self).background_color,
                    old(self).text_color,
                    old(self).primary_color,
                    old(self).secondary_color,
                    old(self).pico,
                ),
                text@,
            ),
    {
        let t = chars_of(text);
        self.libraries = Vec::new();
        assert(self.settings().0 =~= Seq::empty());
        let ghost m0 = self.settings();
        assert(t@.skip(0) =~= t@);
        let mut i: usize = 0;
        while i < t.len()
            invariant
                i <= t@.len(),
                t@ == text@,
                apply_text(self.settings(), t@.skip(i as int)) == apply_text(m0, t@),
            decreases t@.len() - i,
        {
            let j = find_from(&t, i, '\n');
            let ghost rest_t = t@.skip(i as int);
            proof {
                assert forall|m: int| 0 <= m < j - i implies rest_t[m] != '\n' by {
                    assert(rest_t[m] == t@[i + m]);
                }
                lemma_find(rest_t, '\n', j - i);
            }
            let mut e: usize = j;
            if e > i && t[e - 1] == '\r' {
                e = e - 1;
            }
            let line = slice_of(&t, i, e);
            assert(split_line(rest_t).0 =~= t@.subrange(i as int, j as int));
            assert(line@ =~= strip_cr(t@.subrange(i as int, j as int)));
            proof {
                reveal(apply_text);
            }
            self.apply_line(&line);
            if j < t.len() {
                assert(split_line(rest_t).1 =~= t@.skip(j + 1));
                i = j + 1;
            } else {
                assert(split_line(rest_t).1 =~= Seq::<char>::empty());
                i = t.len();
                assert(t@.skip(i as int) =~= Seq::<char>::empty());
            }
        }
        assert(t@.skip(i as int) =~= Seq::<char>::empty());
        proof {
            reveal(apply_text);
        }
    }

    /// The settings text that `load_str` reads back.
    pub fn to_text(&self) -> (r: String)
        ensures
            r@ == render(self.settings()),
    {
        let mut s = String::new();
        let k_library = chars_of("library");
        proof {
            reveal_strlit("library");
            assert(k_library@ =~= key_library());
        }
        let mut i: usize = 0;
        while i < self.libraries.len()
            invariant
                i <= self.libraries@.len(),
                k_library@ == key_library(),
                s@ == library_lines(self.settings().0.take(i as int)),
            decreases self.libraries@.len() - i,
        {
            let name = chars_of(self.libraries[i].as_str());
            push_chars(&mut s, &k_library);
            push_char(&mut s, ';');
            push_chars(&mut s, &name);
            push_char(&mut s, '\n');
            assert(self.settings().0.take(i + 1).drop_last() =~= self.settings().0.take(i as int));
            assert(s@ =~= library_lines(self.settings().0.take(i + 1)));
            i = i + 1;
        }
        assert(self.settings().0.take(i as int) =~= self.settings().0);
        let ghost libs = s@;
        push_color_line(&mut s, "background_color", self.background_color);
        push_color_line(&mut s, "text_color", self.text_color);
        push_color_line(&mut s, "primary_color", self.primary_color);
        push_color_line(&mut s, "secondary_color", self.secondary_color);
        proof {
            reveal_strlit("background_color");
            reveal_strlit("text_color");
            reveal_strlit("primary_color");
            reveal_strlit("secondary_color");
            assert("background_color"@ =~= key_background());
            assert("text_color"@ =~= key_text());
            assert("primary_color"@ =~= key_primary());
            assert("secondary_color"@ =~= key_secondary());
        }
        if self.pico {
            let k_pico = chars_of("pico");
            proof {
                reveal_strlit("pico");
            }
            push_chars(&mut s, &k_pico);
            push_char(&mut s, ';');
            push_char(&mut s, '\n');
        }
        assert(s@ =~= render(self.settings()));
        s
    }
}

fn push_color_line(s: &mut String, key: &str, v: u32)
    ensures
        final(s)@ == old(s)@ + color_line(key@, v),
{
    let k = chars_of(key);
    push_chars(s, &k);
    push_char(s, ';');
    push_char(s, '#');
    push_hex(s, v);
    push_char(s, '\n');
    assert(s@ =~= old(s)@ + color_line(key@, v));
}

} // verus!

verus! {

proof fn lemma_upper_digit(k: int)
    requires
        0 <= k < 16,
    ensures
        hex_digit(upper_digit(k)) == k,
{
}

proof fn lemma_hex_digits(v: nat)
    requires
        v <= u32::MAX,
    ensures
        hex_digits(v).len() > 0,
        all_hex(hex_digits(v)),
        hex_value(hex_digits(v)) == v,
    decreases v,
{
    if v < 16 {
        lemma_upper_digit(v as int);
        assert(hex_digits(v).drop_last() =~= Seq::<char>::empty());
        assert(hex_value(Seq::<char>::empty()) == 0);
        assert(hex_value(hex_digits(v)) == hex_value(hex_digits(v).drop_last()) * 16 + hex_digit(
            upper_digit(v as int),
        ));
    } else {
        lemma_hex_digits(v / 16);
        lemma_upper_digit((v % 16) as int);
        let s = hex_digits(v);
        assert(s.drop_last() =~= hex_digits(v / 16));
        assert(s.last() == upper_digit((v % 16) as int));
        vstd::arithmetic::div_mod::lemma_fundamental_div_mod(v as int, 16);
        assert(hex_value(s) == hex_value(hex_digits(v / 16)) * 16 + hex_digit(s.last()));
        assert(hex_value(s) == (v / 16) * 16 + v % 16);
        assert forall|i: int| 0 <= i < s.len() implies #[trigger] hex_digit(s[i]) >= 0 by {
            if i < s.len() - 1 {
                assert(s[i] == hex_digits(v / 16)[i]);
            }
        }
    }
}

/// A line without a line break, followed by a line break, is applied first.
proof fn lemma_apply_first_line(m: Settings, l: Seq<char>, rest: Seq<char>)
    requires
        forall|i: int| 0 <= i < l.len() ==> l[i] != '\n',
    ensures
        apply_text(m, l + seq!['\n'] + rest) == apply_text(apply_line(m, strip_cr(l)), rest),
{
    reveal(apply_text);
    let t = l + seq!['\n'] + rest;
    lemma_find(t, '\n', l.len() as int);
    assert(t.take(l.len() as int) =~= l);
    assert(t.skip(l.len() as int + 1) =~= rest);
}

/// A `key;value` line with a key free of `;`.
proof fn lemma_split_key(key: Seq<char>, v: Seq<char>)
    requires
        forall|i: int| 0 <= i < key.len() ==> key[i] != ';',
    ensures
        find(key + seq![';'] + v, ';') == key.len(),
        (key + seq![';'] + v).take(key.len() as int) == key,
        (key + seq![';'] + v).skip(key.len() as int + 1) == v,
{
    let l = key + seq![';'] + v;
    lemma_find(l, ';', key.len() as int);
    assert(l.take(key.len() as int) =~= key);
    assert(l.skip(key.len() as int + 1) =~= v);
}

proof fn lemma_color_line(m: Settings, key: Seq<char>, v: u32, rest: Seq<char>)
    requires
        key == key_background() || key == key_text() || key == key_primary() || key
            == key_secondary(),
    ensures
        apply_text(m, color_line(key, v) + rest) == apply_text(
            if key == key_background() {
                (m.0, v, m.2, m.3, m.4, m.5)
            } else if key == key_text() {
                (m.0, m.1, v, m.3, m.4, m.5)
            } else if key == key_primary() {
                (m.0, m.1, m.2, v, m.4, m.5)
            } else {
                (m.0, m.1, m.2, m.3, v, m.5)
            },
            rest,
        ),
{
    let digits = hex_digits(v as nat);
    lemma_hex_digits(v as nat);
    let val = seq!['#'] + digits;
    let l = key + seq![';'] + val;
    assert(l + seq!['\n'] + rest =~= color_line(key, v) + rest);
    assert forall|i: int| 0 <= i < l.len() implies l[i] != '\n' by {
        if i > key.len() + 1 {
            assert(l[i] == digits[i - key.len() - 2]);
            assert(hex_digit(digits[i - key.len() - 2]) >= 0);
        }
    }
    lemma_apply_first_line(m, l, rest);
    assert(hex_digit(digits.last()) >= 0);
    assert(strip_cr(l) == l);
    lemma_split_key(key, val);
    assert(val.drop_first() =~= digits);
    assert(val[0] == '#');
    assert(parse_hex(digits) == Some(v));
    assert(color_value(val, 0) == v);
}

proof fn lemma_library_lines(m: Settings, libs: Seq<Seq<char>>, rest: Seq<char>)
    requires
        forall|k: int| 0 <= k < libs.len() ==> plain_name(#[trigger] libs[k]),
    ensures
        apply_text(m, library_lines(libs) + rest) == apply_text(
            (m.0 + libs, m.1, m.2, m.3, m.4, m.5),
            rest,
        ),
    decreases libs.len(),
{
    if libs.len() == 0 {
        assert(library_lines(libs) + rest =~= rest);
        assert(m.0 + libs =~= m.0);
        assert((m.0 + libs, m.1, m.2, m.3, m.4, m.5) == m);
        assert(m.0 + libs =~= m.0);
    } else {
        let init = libs.drop_last();
        let name = libs.last();
        assert(plain_name(libs[libs.len() - 1]));
        let l = key_library() + seq![';'] + name;
        let tail = l + seq!['\n'] + rest;
        assert(library_lines(libs) + rest =~= library_lines(init) + tail);
        lemma_library_lines(m, init, tail);
        let m1 = (m.0 + init, m.1, m.2, m.3, m.4, m.5);
        lemma_apply_first_line(m1, l, rest);
        assert(strip_cr(l) == l);
        lemma_split_key(key_library(), name);
        assert(m1.0.push(name) =~= m.0 + libs);
    }
}

/// A library root that a settings text can hold: no line break in it, and no
/// carriage return at its end.
pub open spec fn plain_name(s: Seq<char>) -> bool {
    &&& forall|i: int| 0 <= i < s.len() ==> s[i] != '\n'
    &&& !(s.len() > 0 && s.last() == '\r')
}

/// Saving settings and reading the text back into settings with no library
/// roots and the flag unset gives the same settings.
pub proof fn lemma_save_load_round_trip(c: Settings, start: Settings)
    requires
        forall|k: int| 0 <= k < c.0.len() ==> plain_name(#[trigger] c.0[k]),
        start.0.len() == 0,
        !start.5,
    ensures
        apply_text(start, render(c)) == c,
{
    let pico = if c.5 {
        key_pico() + seq![';', '\n']
    } else {
        Seq::<char>::empty()
    };
    let c4 = color_line(key_secondary(), c.4) + pico;
    let c3 = color_line(key_primary(), c.3) + c4;
    let c2 = color_line(key_text(), c.2) + c3;
    let c1 = color_line(key_background(), c.1) + c2;
    assert(render(c) =~= library_lines(c.0) + c1);
    lemma_library_lines(start, c.0, c1);
    let m0 = (start.0 + c.0, start.1, start.2, start.3, start.4, start.5);
    assert(start.0 + c.0 =~= c.0);
    lemma_color_line(m0, key_background(), c.1, c2);
    let m1 = (c.0, c.1, start.2, start.3, start.4, start.5);
    lemma_color_line(m1, key_text(), c.2, c3);
    let m2 = (c.0, c.1, c.2, start.3, start.4, start.5);
    lemma_color_line(m2, key_primary(), c.3, c4);
    let m3 = (c.0, c.1, c.2, c.3, start.4, start.5);
    lemma_color_line(m3, key_secondary(), c.4, pico);
    let m4 = (c.0, c.1, c.2, c.3, c.4, start.5);
    if c.5 {
        let l = key_pico() + seq![';'];
        assert(pico =~= l + seq!['\n'] + Seq::<char>::empty());
        lemma_apply_first_line(m4, l, Seq::<char>::empty());
        assert(strip_cr(l) == l);
        lemma_split_key(key_pico(), Seq::<char>::empty());
    }
    reveal(apply_text);
}

} // verus!
