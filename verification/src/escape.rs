//! Media-aware escaping of rendered values, and the traits that checked
//! templates use to render and test their fields.

use vstd::prelude::*;

use crate::media::MediaType;
use crate::text::{chars_of, push_char, push_str, string_of};

verus! {

/// What HTML (and XML) output writes for one character.
pub open spec fn html_char(c: char) -> Seq<char> {
    if c == '&' {
        seq!['&', 'a', 'm', 'p', ';']
    } else if c == '<' {
        seq!['&', 'l', 't', ';']
    } else if c == '>' {
        seq!['&', 'g', 't', ';']
    } else if c == '"' {
        seq!['&', 'q', 'u', 'o', 't', ';']
    } else if c == '\'' {
        seq!['&', '#', 'x', '2', '7', ';']
    } else {
        seq![c]
    }
}

/// HTML/XML escaping of a whole string.
pub open spec fn html_escaped(s: Seq<char>) -> Seq<char>
    decreases s.len(),
{
    if s.len() == 0 {
        seq![]
    } else {
        html_escaped(s.drop_last()) + html_char(s.last())
    }
}

/// Lower-case hexadecimal digit.
pub open spec fn hex_digit(n: u32) -> char {
    seq!['0', '1', '2', '3', '4', '5', '6', '7', '8', '9', 'a', 'b', 'c', 'd', 'e', 'f'][n as int]
}

/// What a JSON string body writes for one character.
pub open spec fn json_char(c: char) -> Seq<char> {
    if c == '"' {
        seq!['\\', '"']
    } else if c == '\\' {
        seq!['\\', '\\']
    } else if c == '\n' {
        seq!['\\', 'n']
    } else if c == '\r' {
        seq!['\\', 'r']
    } else if c == '\t' {
        seq!['\\', 't']
    } else if (c as u32) <= 0x1f {
        seq!['\\', 'u', '0', '0', hex_digit((c as u32) / 16), hex_digit((c as u32) % 16)]
    } else {
        seq![c]
    }
}

/// JSON string-body escaping of a whole string.
pub open spec fn json_escaped(s: Seq<char>) -> Seq<char>
    decreases s.len(),
{
    if s.len() == 0 {
        seq![]
    } else {
        json_escaped(s.drop_last()) + json_char(s.last())
    }
}

fn push_html_char(output: &mut String, c: char)
    ensures
        final(output)@ == old(output)@ + html_char(c),
{
    proof {
        reveal_strlit("&amp;");
        reveal_strlit("&lt;");
        reveal_strlit("&gt;");
        reveal_strlit("&quot;");
        reveal_strlit("&#x27;");
    }
    if c == '&' {
        push_str(output, "&amp;");
    } else if c == '<' {
        push_str(output, "&lt;");
    } else if c == '>' {
        push_str(output, "&gt;");
    } else if c == '"' {
        push_str(output, "&quot;");
    } else if c == '\'' {
        push_str(output, "&#x27;");
    } else {
        push_char(output, c);
        proof {
            assert(old(output)@.push(c) =~= old(output)@ + seq![c]);
        }
    }
}

fn hex(n: u32) -> (c: char)
    requires
        n < 16,
    ensures
        c == hex_digit(n),
{
    let digits = ['0', '1', '2', '3', '4', '5', '6', '7', '8', '9', 'a', 'b', 'c', 'd', 'e', 'f'];
    proof {
        assert(digits@ =~= seq![
            '0', '1', '2', '3', '4', '5', '6', '7', '8', '9', 'a', 'b', 'c', 'd', 'e', 'f',
        ]);
    }
    digits[n as usize]
}

fn push_json_char(output: &mut String, c: char)
    ensures
        final(output)@ == old(output)@ + json_char(c),
{
    let v = c as u32;
    if c == '"' {
        push_char(output, '\\');
        push_char(output, '"');
    } else if c == '\\' {
        push_char(output, '\\');
        push_char(output, '\\');
    } else if c == '\n' {
        push_char(output, '\\');
        push_char(output, 'n');
    } else if c == '\r' {
        push_char(output, '\\');
        push_char(output, 'r');
    } else if c == '\t' {
        push_char(output, '\\');
        push_char(output, 't');
    } else if v <= 0x1f {
        push_char(output, '\\');
        push_char(output, 'u');
        push_char(output, '0');
        push_char(output, '0');
        let hi = hex(v / 16);
        let lo = hex(v % 16);
        push_char(output, hi);
        push_char(output, lo);
    } else {
        push_char(output, c);
    }
    proof {
        assert(output@ =~= old(output)@ + json_char(c));
    }
}

/// Appends `value` escaped for HTML or XML text and attribute values.
pub fn html(value: &str, output: &mut String)
    ensures
        final(output)@ == old(output)@ + html_escaped(value@),
{
    let cs = chars_of(value);
    let mut i: usize = 0;
    proof {
        assert(value@.take(0) =~= Seq::<char>::empty());
    }
    while i < cs.len()
        invariant
            i <= cs@.len(),
            cs@ == value@,
            output@ == old(output)@ + html_escaped(value@.take(i as int)),
        decreases cs@.len() - i,
    {
        proof {
            assert(value@.take(i as int + 1).drop_last() =~= value@.take(i as int));
        }
        push_html_char(output, cs[i]);
        i = i + 1;
        proof {
            assert(html_escaped(value@.take(i as int)) == html_escaped(value@.take(i - 1))
                + html_char(value@[i - 1]));
        }
    }
    proof {
        assert(value@.take(cs@.len() as int) =~= value@);
    }
}

/// Appends `value` escaped for the body of a JSON string literal.
pub fn json(value: &str, output: &mut String)
    ensures
        final(output)@ == old(output)@ + json_escaped(value@),
{
    let cs = chars_of(value);
    let mut i: usize = 0;
    proof {
        assert(value@.take(0) =~= Seq::<char>::empty());
    }
    while i < cs.len()
        invariant
            i <= cs@.len(),
            cs@ == value@,
            output@ == old(output)@ + json_escaped(value@.take(i as int)),
        decreases cs@.len() - i,
    {
        proof {
            assert(value@.take(i as int + 1).drop_last() =~= value@.take(i as int));
        }
        push_json_char(output, cs[i]);
        i = i + 1;
        proof {
            assert(json_escaped(value@.take(i as int)) == json_escaped(value@.take(i - 1))
                + json_char(value@[i - 1]));
        }
    }
    proof {
        assert(value@.take(cs@.len() as int) =~= value@);
    }
}

/// What rendering the text `s` writes for a media type: HTML and XML are
/// entity-escaped, JSON is string-escaped and plain text is written as is.
pub open spec fn escaped_for(media_type: MediaType, s: Seq<char>) -> Seq<char> {
    match media_type {
        MediaType::Html | MediaType::Xml => html_escaped(s),
        MediaType::Json => json_escaped(s),
        MediaType::Text => s,
    }
}

/// Appends `value` escaped for `media_type`.
pub fn write_escaped(value: &str, media_type: MediaType, output: &mut String)
    ensures
        final(output)@ == old(output)@ + escaped_for(media_type, value@),
{
    match media_type {
        MediaType::Html | MediaType::Xml => html(value, output),
        MediaType::Json => json(value, output),
        MediaType::Text => push_str(output, value),
    }
}

/// Decimal digits of a natural number.
pub open spec fn decimal_digits(n: nat) -> Seq<char>
    decreases n,
{
    if n < 10 {
        seq![hex_digit(n as u32)]
    } else {
        decimal_digits(n / 10).push(hex_digit((n % 10) as u32))
    }
}

/// Decimal notation of an integer, with a leading `-` when negative.
pub open spec fn decimal(v: int) -> Seq<char> {
    if v < 0 {
        seq!['-'] + decimal_digits((-v) as nat)
    } else {
        decimal_digits(v as nat)
    }
}

/// Formats an integer in decimal with `itoa::Buffer::format`, which prints
/// integer primitives in plain decimal notation.
#[verifier::external_body]
pub(crate) fn format_integer(v: i128) -> (s: String)
    ensures
        s@ == decimal(v as int),
{
    itoa::Buffer::new().format(v).to_owned()
}

/// HTML that the application has already escaped; written verbatim into HTML output.
#[derive(Debug, Clone, PartialEq, Eq)]
pub struct SafeHtml(String);

/// XML that the application has already escaped; written verbatim into XML output.
#[derive(Debug, Clone, PartialEq, Eq)]
pub struct SafeXml(String);

/// A JSON string body that the application has already escaped; written verbatim into JSON output.
#[derive(Debug, Clone, PartialEq, Eq)]
pub struct SafeJsonString(String);

impl View for SafeHtml {
    type V = Seq<char>;

    closed spec fn view(&self) -> Seq<char> {
        self.0@
    }
}

impl SafeHtml {
    pub fn new(value: &str) -> (r: Self)
        ensures
            r@ == value@,
    {
        SafeHtml(value.to_owned())
    }

    pub fn as_str(&self) -> (r: &str)
        ensures
            r@ == self@,
    {
        self.0.as_str()
    }

    pub fn into_inner(self) -> (r: String)
        ensures
            r@ == self@,
    {
        self.0
    }
}

impl View for SafeXml {
    type V = Seq<char>;

    closed spec fn view(&self) -> Seq<char> {
        self.0@
    }
}

impl SafeXml {
    pub fn new(value: &str) -> (r: Self)
        ensures
            r@ == value@,
    {
        SafeXml(value.to_owned())
    }

    pub fn as_str(&self) -> (r: &str)
        ensures
            r@ == self@,
    {
        self.0.as_str()
    }

    pub fn into_inner(self) -> (r: String)
        ensures
            r@ == self@,
    {
        self.0
    }
}

impl View for SafeJsonString {
    type V = Seq<char>;

    closed spec fn view(&self) -> Seq<char> {
        self.0@
    }
}

impl SafeJsonString {
    pub fn new(value: &str) -> (r: Self)
        ensures
            r@ == value@,
    {
        SafeJsonString(value.to_owned())
    }

    pub fn as_str(&self) -> (r: &str)
        ensures
            r@ == self@,
    {
        self.0.as_str()
    }

    pub fn into_inner(self) -> (r: String)
        ensures
            r@ == self@,
    {
        self.0
    }
}

/// Values that checked templates write into their output.
pub trait RenderValue {
    /// The text this value writes for `media_type`.
    spec fn rendered(&self, media_type: MediaType) -> Seq<char>;

    fn render_value(&self, media_type: MediaType, output: &mut String)
        ensures
            final(output)@ == old(output)@ + self.rendered(media_type),
    ;
}

impl<T: RenderValue + ?Sized> RenderValue for &T {
    open spec fn rendered(&self, media_type: MediaType) -> Seq<char> {
        (**self).rendered(media_type)
    }

    fn render_value(&self, media_type: MediaType, output: &mut String) {
        (**self).render_value(media_type, output)
    }
}

impl RenderValue for str {
    open spec fn rendered(&self, media_type: MediaType) -> Seq<char> {
        escaped_for(media_type, self@)
    }

    fn render_value(&self, media_type: MediaType, output: &mut String) {
        write_escaped(self, media_type, output)
    }
}

impl RenderValue for String {
    open spec fn rendered(&self, media_type: MediaType) -> Seq<char> {
        escaped_for(media_type, self@)
    }

    fn render_value(&self, media_type: MediaType, output: &mut String) {
        write_escaped(self.as_str(), media_type, output)
    }
}

impl RenderValue for bool {
    open spec fn rendered(&self, media_type: MediaType) -> Seq<char> {
        if *self {
            seq!['t', 'r', 'u', 'e']
        } else {
            seq!['f', 'a', 'l', 's', 'e']
        }
    }

    fn render_value(&self, media_type: MediaType, output: &mut String) {
        proof {
            reveal_strlit("true");
            reveal_strlit("false");
        }
        push_str(output, if *self { "true" } else { "false" });
    }
}

impl RenderValue for char {
    open spec fn rendered(&self, media_type: MediaType) -> Seq<char> {
        escaped_for(media_type, seq![*self])
    }

    fn render_value(&self, media_type: MediaType, output: &mut String) {
        let one = [*self];
        let s = string_of(&one);
        proof {
            assert(one@ =~= seq![*self]);
        }
        write_escaped(s.as_str(), media_type, output)
    }
}

impl RenderValue for SafeHtml {
    open spec fn rendered(&self, media_type: MediaType) -> Seq<char> {
        if media_type == MediaType::Html {
            self@
        } else {
            escaped_for(media_type, self@)
        }
    }

    fn render_value(&self, media_type: MediaType, output: &mut String) {
        if media_type == MediaType::Html {
            push_str(output, self.as_str());
        } else {
            write_escaped(self.as_str(), media_type, output);
        }
    }
}

impl RenderValue for SafeXml {
    open spec fn rendered(&self, media_type: MediaType) -> Seq<char> {
        if media_type == MediaType::Xml {
            self@
        } else {
            escaped_for(media_type, self@)
        }
    }

    fn render_value(&self, media_type: MediaType, output: &mut String) {
        if media_type == MediaType::Xml {
            push_str(output, self.as_str());
        } else {
            write_escaped(self.as_str(), media_type, output);
        }
    }
}

impl RenderValue for SafeJsonString {
    open spec fn rendered(&self, media_type: MediaType) -> Seq<char> {
        if media_type == MediaType::Json {
            self@
        } else {
            escaped_for(media_type, self@)
        }
    }

    fn render_value(&self, media_type: MediaType, output: &mut String) {
        if media_type == MediaType::Json {
            push_str(output, self.as_str());
        } else {
            write_escaped(self.as_str(), media_type, output);
        }
    }
}

impl RenderValue for i8 {
    open spec fn rendered(&self, media_type: MediaType) -> Seq<char> {
        decimal(*self as int)
    }

    fn render_value(&self, media_type: MediaType, output: &mut String) {
        let s = format_integer(*self as i128);
        push_str(output, s.as_str());
    }
}

impl RenderValue for i16 {
    open spec fn rendered(&self, media_type: MediaType) -> Seq<char> {
        decimal(*self as int)
    }

    fn render_value(&self, media_type: MediaType, output: &mut String) {
        let s = format_integer(*self as i128);
        push_str(output, s.as_str());
    }
}

impl RenderValue for i32 {
    open spec fn rendered(&self, media_type: MediaType) -> Seq<char> {
        decimal(*self as int)
    }

    fn render_value(&self, media_type: MediaType, output: &mut String) {
        let s = format_integer(*self as i128);
        push_str(output, s.as_str());
    }
}

impl RenderValue for i64 {
    open spec fn rendered(&self, media_type: MediaType) -> Seq<char> {
        decimal(*self as int)
    }

    fn render_value(&self, media_type: MediaType, output: &mut String) {
        let s = format_integer(*self as i128);
        push_str(output, s.as_str());
    }
}

impl RenderValue for isize {
    open spec fn rendered(&self, media_type: MediaType) -> Seq<char> {
        decimal(*self as int)
    }

    fn render_value(&self, media_type: MediaType, output: &mut String) {
        let s = format_integer(*self as i128);
        push_str(output, s.as_str());
    }
}

impl RenderValue for u8 {
    open spec fn rendered(&self, media_type: MediaType) -> Seq<char> {
        decimal(*self as int)
    }

    fn render_value(&self, media_type: MediaType, output: &mut String) {
        let s = format_integer(*self as i128);
        push_str(output, s.as_str());
    }
}

impl RenderValue for u16 {
    open spec fn rendered(&self, media_type: MediaType) -> Seq<char> {
        decimal(*self as int)
    }

    fn render_value(&self, media_type: MediaType, output: &mut String) {
        let s = format_integer(*self as i128);
        push_str(output, s.as_str());
    }
}

impl RenderValue for u32 {
    open spec fn rendered(&self, media_type: MediaType) -> Seq<char> {
        decimal(*self as int)
    }

    fn render_value(&self, media_type: MediaType, output: &mut String) {
        let s = format_integer(*self as i128);
        push_str(output, s.as_str());
    }
}

impl RenderValue for u64 {
    open spec fn rendered(&self, media_type: MediaType) -> Seq<char> {
        decimal(*self as int)
    }

    fn render_value(&self, media_type: MediaType, output: &mut String) {
        let s = format_integer(*self as i128);
        push_str(output, s.as_str());
    }
}

impl RenderValue for usize {
    open spec fn rendered(&self, media_type: MediaType) -> Seq<char> {
        decimal(*self as int)
    }

    fn render_value(&self, media_type: MediaType, output: &mut String) {
        let s = format_integer(*self as i128);
        push_str(output, s.as_str());
    }
}

impl RenderValue for i128 {
    open spec fn rendered(&self, media_type: MediaType) -> Seq<char> {
        decimal(*self as int)
    }

    fn render_value(&self, media_type: MediaType, output: &mut String) {
        let s = format_integer(*self as i128);
        push_str(output, s.as_str());
    }
}

/// Truthiness of checked-template values, as `{#if}` tests them.
pub trait Truthy {
    spec fn truthy(&self) -> bool;

    fn is_truthy(&self) -> (b: bool)
        ensures
            b == self.truthy(),
    ;
}

impl<T: Truthy + ?Sized> Truthy for &T {
    open spec fn truthy(&self) -> bool {
        (**self).truthy()
    }

    fn is_truthy(&self) -> bool {
        (**self).is_truthy()
    }
}

impl Truthy for bool {
    open spec fn truthy(&self) -> bool {
        *self
    }

    fn is_truthy(&self) -> bool {
        *self
    }
}

impl Truthy for str {
    open spec fn truthy(&self) -> bool {
        self@.len() > 0
    }

    fn is_truthy(&self) -> bool {
        !self.is_empty()
    }
}

impl Truthy for String {
    open spec fn truthy(&self) -> bool {
        self@.len() > 0
    }

    fn is_truthy(&self) -> bool {
        !self.as_str().is_empty()
    }
}

impl<T> Truthy for [T] {
    open spec fn truthy(&self) -> bool {
        self@.len() > 0
    }

    fn is_truthy(&self) -> bool {
        self.len() != 0
    }
}

impl<T> Truthy for Vec<T> {
    open spec fn truthy(&self) -> bool {
        self@.len() > 0
    }

    fn is_truthy(&self) -> bool {
        self.len() != 0
    }
}

impl<T> Truthy for Option<T> {
    open spec fn truthy(&self) -> bool {
        self is Some
    }

    fn is_truthy(&self) -> bool {
        self.is_some()
    }
}

impl Truthy for i8 {
    open spec fn truthy(&self) -> bool {
        *self != 0
    }

    fn is_truthy(&self) -> bool {
        *self != 0
    }
}

impl Truthy for i16 {
    open spec fn truthy(&self) -> bool {
        *self != 0
    }

    fn is_truthy(&self) -> bool {
        *self != 0
    }
}

impl Truthy for i32 {
    open spec fn truthy(&self) -> bool {
        *self != 0
    }

    fn is_truthy(&self) -> bool {
        *self != 0
    }
}

impl Truthy for i64 {
    open spec fn truthy(&self) -> bool {
        *self != 0
    }

    fn is_truthy(&self) -> bool {
        *self != 0
    }
}

impl Truthy for i128 {
    open spec fn truthy(&self) -> bool {
        *self != 0
    }

    fn is_truthy(&self) -> bool {
        *self != 0
    }
}

impl Truthy for isize {
    open spec fn truthy(&self) -> bool {
        *self != 0
    }

    fn is_truthy(&self) -> bool {
        *self != 0
    }
}

impl Truthy for u8 {
    open spec fn truthy(&self) -> bool {
        *self != 0
    }

    fn is_truthy(&self) -> bool {
        *self != 0
    }
}

impl Truthy for u16 {
    open spec fn truthy(&self) -> bool {
        *self != 0
    }

    fn is_truthy(&self) -> bool {
        *self != 0
    }
}

impl Truthy for u32 {
    open spec fn truthy(&self) -> bool {
        *self != 0
    }

    fn is_truthy(&self) -> bool {
        *self != 0
    }
}

impl Truthy for u64 {
    open spec fn truthy(&self) -> bool {
        *self != 0
    }

    fn is_truthy(&self) -> bool {
        *self != 0
    }
}

impl Truthy for u128 {
    open spec fn truthy(&self) -> bool {
        *self != 0
    }

    fn is_truthy(&self) -> bool {
        *self != 0
    }
}

impl Truthy for usize {
    open spec fn truthy(&self) -> bool {
        *self != 0
    }

    fn is_truthy(&self) -> bool {
        *self != 0
    }
}


/// HTML/XML escaping leaves no character that could open or close markup or
/// an attribute value: no `<`, `>`, `"` or `'`.
pub proof fn law_html_escaped_is_markup_free(s: Seq<char>)
    ensures
        forall|i: int|
            0 <= i < html_escaped(s).len() ==> {
                let c = #[trigger] html_escaped(s)[i];
                c != '<' && c != '>' && c != '"' && c != '\''
            },
    decreases s.len(),
{
    if s.len() > 0 {
        law_html_escaped_is_markup_free(s.drop_last());
        let a = html_escaped(s.drop_last());
        let b = html_char(s.last());
        assert forall|i: int| 0 <= i < html_escaped(s).len() implies {
            let c = #[trigger] html_escaped(s)[i];
            c != '<' && c != '>' && c != '"' && c != '\''
        } by {
            if i < a.len() {
                assert(html_escaped(s)[i] == a[i]);
            } else {
                assert(html_escaped(s)[i] == b[i - a.len()]);
            }
        }
    }
}

/// A JSON string body after escaping holds no control character, and each
/// `"` in it is escaped by the `\` just before it.
pub proof fn law_json_escaped_stays_in_string(s: Seq<char>)
    ensures
        forall|i: int| 0 <= i < json_escaped(s).len() ==> (#[trigger] json_escaped(s)[i] as u32) > 0x1f,
        forall|i: int|
            0 <= i < json_escaped(s).len() && #[trigger] json_escaped(s)[i] == '"' ==> i > 0 && json_escaped(
                s,
            )[i - 1] == '\\',
    decreases s.len(),
{
    if s.len() > 0 {
        law_json_escaped_stays_in_string(s.drop_last());
        let a = json_escaped(s.drop_last());
        let b = json_char(s.last());
        let e = json_escaped(s);
        assert(e == a + b);
        assert forall|i: int| 0 <= i < e.len() implies (#[trigger] e[i] as u32) > 0x1f by {
            if i < a.len() {
                assert(e[i] == a[i]);
            } else {
                assert(e[i] == b[i - a.len()]);
                let c = s.last();
                if (c as u32) <= 0x1f && c != '\n' && c != '\r' && c != '\t' {
                    assert((c as u32) / 16 < 16);
                    assert((c as u32) % 16 < 16);
                }
            }
        }
        assert forall|i: int| 0 <= i < e.len() && #[trigger] e[i] == '"' implies i > 0 && e[i - 1] == '\\' by {
            if i < a.len() {
                assert(e[i] == a[i]);
                assert(e[i - 1] == a[i - 1]);
            } else {
                assert(e[i] == b[i - a.len()]);
                if i - a.len() >= 1 {
                    assert(e[i - 1] == b[i - 1 - a.len()]);
                }
                let c = s.last();
                if (c as u32) <= 0x1f && c != '\n' && c != '\r' && c != '\t' {
                    assert((c as u32) / 16 < 2);
                }
            }
        }
    }
}

} // verus!
