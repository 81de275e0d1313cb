//! Address mapping: the subaddressing and catch-all rewriting applied to an
//! address before every lookup. Three modes: disabled (identity), standard
//! plus-addressing, or a custom rule made of a regular expression and a
//! positional template.

use vstd::prelude::*;

use crate::strutil::{
    find_char, push_char, rfind_char, str_seq_view, substring,
};

verus! {

/// What a custom rule's iterative search collects: every capture group
/// (whole match included) of the last match of the pattern in the haystack,
/// in order; empty exactly when the pattern does not match. A function of
/// the two strings alone.
pub uninterp spec fn regex_last_captures(pattern: Seq<char>, hay: Seq<char>) -> Seq<Seq<char>>;

/// A compiled custom rule: the pattern source and its compiled form, which
/// the constructor keeps in step.
pub struct CompiledPattern {
    pattern: String,
    regex: regex::Regex,
}

#[verifier::external_type_specification]
#[verifier::external_body]
pub struct ExRegex(regex::Regex);

impl CompiledPattern {
    /// The pattern source this rule was compiled from.
    pub closed spec fn pat(&self) -> Seq<char> {
        self.pattern@
    }

    /// Relies on `regex::Regex::new`: compiles the pattern, or reports the
    /// pattern is not a valid regular expression.
    #[verifier::external_body]
    pub fn compile(pattern: &str) -> (r: Option<CompiledPattern>)
        ensures
            r matches Some(c) ==> c.pat() == pattern@,
    {
        match regex::Regex::new(pattern) {
            Ok(regex) => Some(CompiledPattern { pattern: pattern.to_owned(), regex }),
            Err(_) => None,
        }
    }

    /// Relies on `regex::Regex::captures_iter`: the capture groups of the
    /// last match, a function of the pattern and the haystack alone;
    /// unmatched groups come back empty.
    #[verifier::external_body]
    pub(crate) fn last_captures(&self, hay: &str) -> (r: Vec<String>)
        ensures
            str_seq_view(r@) == regex_last_captures(self.pat(), hay@),
    {
        let mut out: Vec<String> = Vec::new();
        if let Some(captures) = self.regex.captures_iter(hay).last() {
            for group in captures.iter() {
                out.push(group.map_or("", |m| m.as_str()).to_string());
            }
        }
        out
    }
}

/// One piece of a rewriting template: literal text or a positional capture.
pub enum TemplatePart {
    Literal(String),
    Capture(usize),
}

/// The view of a template piece.
pub ghost enum TemplatePartData {
    Literal(Seq<char>),
    Capture(usize),
}

impl View for TemplatePart {
    type V = TemplatePartData;

    open spec fn view(&self) -> TemplatePartData {
        match self {
            TemplatePart::Literal(s) => TemplatePartData::Literal(s@),
            TemplatePart::Capture(i) => TemplatePartData::Capture(*i),
        }
    }
}

/// The expansion of a template against a capture list: literals verbatim,
/// positions replaced by the capture or nothing when out of range.
pub open spec fn apply_template(parts: Seq<TemplatePartData>, caps: Seq<Seq<char>>) -> Seq<char>
    decreases parts.len(),
{
    if parts.len() == 0 {
        Seq::empty()
    } else {
        (match parts[0] {
            TemplatePartData::Literal(s) => s,
            TemplatePartData::Capture(i) => if i < caps.len() {
                caps[i as int]
            } else {
                Seq::empty()
            },
        }) + apply_template(parts.drop_first(), caps)
    }
}

/// A rewriting template.
pub struct MappingTemplate {
    pub parts: Vec<TemplatePart>,
}

impl MappingTemplate {
    /// Expand the template against a capture list.
    pub fn apply(&self, caps: &Vec<String>) -> (r: String)
        ensures
            r@ == apply_template(self.parts@.map_values(|p: TemplatePart| p@), str_seq_view(caps@)),
    {
        let ghost pv = self.parts@.map_values(|p: TemplatePart| p@);
        let ghost cv = str_seq_view(caps@);
        let mut out = String::new();
        let n = self.parts.len();
        let mut i: usize = 0;
        proof {
            assert(pv.skip(0) =~= pv);
        }
        while i < n
            invariant
                n == self.parts@.len(),
                0 <= i <= n,
                pv == self.parts@.map_values(|p: TemplatePart| p@),
                cv == str_seq_view(caps@),
                apply_template(pv, cv) =~= out@ + apply_template(pv.skip(i as int), cv),
            decreases n - i,
        {
            let ghost tail = pv.skip(i as int);
            proof {
                assert(tail[0] == pv[i as int]);
                assert(pv[i as int] == self.parts@[i as int]@);
                assert(tail.drop_first() =~= pv.skip(i + 1));
            }
            match &self.parts[i] {
                TemplatePart::Literal(s) => {
                    out.append(s.as_str());
                },
                TemplatePart::Capture(c) => {
                    if *c < caps.len() {
                        proof {
                            assert(cv[*c as int] == caps@[*c as int]@);
                        }
                        out.append(caps[*c].as_str());
                    }
                },
            }
            proof {
                assert(apply_template(pv, cv) =~= out@ + apply_template(pv.skip(i + 1), cv));
            }
            i = i + 1;
        }
        proof {
            assert(pv.skip(n as int) =~= Seq::<TemplatePartData>::empty());
            assert(apply_template(Seq::<TemplatePartData>::empty(), cv) =~= Seq::<char>::empty());
            assert(out@ =~= out@ + Seq::<char>::empty());
        }
        out
    }
}

/// The subaddress-stripped form of an address under standard
/// plus-addressing: anything from the first `+` up to the last `@` is
/// dropped; an address without both stays as it is.
pub open spec fn plus_stripped(addr: Seq<char>) -> Seq<char> {
    if (exists|i: int| 0 <= i < addr.len() && addr[i] == '@') {
        let at = last_at(addr);
        let local = addr.take(at);
        if (exists|j: int| 0 <= j < local.len() && local[j] == '+') {
            local.take(first_plus(local)) + seq!['@'] + addr.skip(at + 1)
        } else {
            addr
        }
    } else {
        addr
    }
}

/// The index of the last `@`.
pub open spec fn last_at(addr: Seq<char>) -> int {
    choose|i: int|
        0 <= i < addr.len() && addr[i] == '@' && (forall|j: int| i < j < addr.len() ==> addr[j] != '@')
}

/// The index of the first `+`.
pub open spec fn first_plus(local: Seq<char>) -> int {
    choose|i: int|
        0 <= i < local.len() && local[i] == '+' && (forall|j: int| 0 <= j < i ==> local[j] != '+')
}

/// The catch-all form of an address: `@` and its domain part, taken after
/// the last `@`.
pub open spec fn catch_all_of(addr: Seq<char>) -> Option<Seq<char>> {
    if (exists|i: int| 0 <= i < addr.len() && addr[i] == '@') {
        Some(seq!['@'] + addr.skip(last_at(addr) + 1))
    } else {
        None
    }
}

/// An address-normalization rule.
pub enum AddressMapping {
    /// Standard plus-addressing.
    Enable,
    /// A custom rule: captures of the last regular-expression match fed
    /// into a positional template.
    Custom { pattern: CompiledPattern, template: MappingTemplate },
    /// The identity mapping.
    Disable,
}

impl AddressMapping {
    /// What `to_subaddress` returns, over the views.
    pub open spec fn spec_subaddress(&self, addr: Seq<char>) -> Seq<char> {
        match self {
            AddressMapping::Enable => plus_stripped(addr),
            AddressMapping::Custom { pattern, template } => {
                let caps = regex_last_captures(pattern.pat(), addr);
                if caps.len() == 0 {
                    addr
                } else {
                    apply_template(template.parts@.map_values(|p: TemplatePart| p@), caps)
                }
            },
            AddressMapping::Disable => addr,
        }
    }

    /// What `to_catch_all` returns, over the views.
    pub open spec fn spec_catch_all(&self, addr: Seq<char>) -> Option<Seq<char>> {
        match self {
            AddressMapping::Enable => catch_all_of(addr),
            AddressMapping::Custom { pattern, template } => {
                let caps = regex_last_captures(pattern.pat(), addr);
                if caps.len() == 0 {
                    None
                } else {
                    Some(apply_template(template.parts@.map_values(|p: TemplatePart| p@), caps))
                }
            },
            AddressMapping::Disable => None,
        }
    }

    /// Strip a subaddress tag from the address, per the configured rule; an
    /// address the rule does not touch comes back unchanged.
    pub fn to_subaddress(&self, address: &str) -> (r: String)
        ensures
            r@ == self.spec_subaddress(address@),
    {
        match self {
            AddressMapping::Enable => {
                match rfind_char(address, '@') {
                    Some(at) => {
                        let local = substring(address, 0, at);
                        proof {
                            assert(last_at(address@) == at);
                        }
                        match find_char(local.as_str(), '+') {
                            Some(plus) => {
                                proof {
                                    assert(first_plus(local@) == plus);
                                }
                                let n = address.unicode_len();
                                let mut out = substring(address, 0, plus);
                                push_char(&mut out, '@');
                                let rest = substring(address, at + 1, n);
                                out.append(rest.as_str());
                                proof {
                                    assert(local@.take(plus as int) =~= address@.take(
                                        plus as int,
                                    ));
                                    assert(out@ =~= local@.take(plus as int) + seq!['@']
                                        + address@.skip(at + 1));
                                }
                                out
                            },
                            None => address.to_owned(),
                        }
                    },
                    None => address.to_owned(),
                }
            },
            AddressMapping::Custom { pattern, template } => {
                let caps = pattern.last_captures(address);
                if caps.len() == 0 {
                    proof {
                        assert(regex_last_captures(pattern.pat(), address@).len() == 0);
                    }
                    address.to_owned()
                } else {
                    template.apply(&caps)
                }
            },
            AddressMapping::Disable => address.to_owned(),
        }
    }

    /// The catch-all fallback for the address, per the configured rule;
    /// absence means no further fallback exists.
    pub fn to_catch_all(&self, address: &str) -> (r: Option<String>)
        ensures
            match r {
                Some(c) => self.spec_catch_all(address@) == Some(c@),
                None => self.spec_catch_all(address@) is None,
            },
    {
        match self {
            AddressMapping::Enable => {
                match rfind_char(address, '@') {
                    Some(at) => {
                        proof {
                            assert(last_at(address@) == at);
                        }
                        let n = address.unicode_len();
                        let mut out = String::new();
                        push_char(&mut out, '@');
                        let rest = substring(address, at + 1, n);
                        out.append(rest.as_str());
                        proof {
                            assert(out@ =~= seq!['@'] + address@.skip(at + 1));
                        }
                        Some(out)
                    },
                    None => None,
                }
            },
            AddressMapping::Custom { pattern, template } => {
                let caps = pattern.last_captures(address);
                if caps.len() == 0 {
                    proof {
                        assert(regex_last_captures(pattern.pat(), address@).len() == 0);
                    }
                    None
                } else {
                    Some(template.apply(&caps))
                }
            },
            AddressMapping::Disable => None,
        }
    }
}

} // verus!
