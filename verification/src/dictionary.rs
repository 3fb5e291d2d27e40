//! The field dictionary: tag to format grammar.
//!
//! The dictionary is built once, from the fields of the Data Descriptive
//! Record, and then only consulted: every later Data Record field's tag
//! must have been declared there, or the record fails.

use crate::errors::ParseError;
use crate::grammar::FormatGrammar;
use vstd::prelude::*;

verus! {

/// Compares two byte runs for equality.
pub fn bytes_eq(a: &[u8], b: &[u8]) -> (r: bool)
    ensures
        r <==> a@ == b@,
{
    let n = a.len();
    if n != b.len() {
        return false;
    }
    let mut i: usize = 0;
    while i < n
        invariant
            0 <= i <= n,
            n == a@.len(),
            n == b@.len(),
            forall|j: int| 0 <= j < i ==> a@[j] == b@[j],
        decreases n - i,
    {
        if a[i] != b[i] {
            return false;
        }
        i = i + 1;
    }
    proof {
        assert(a@ =~= b@);
    }
    true
}

/// One declared tag and its grammar.
#[derive(Clone, Debug)]
pub struct DictEntry {
    pub tag: Vec<u8>,
    pub grammar: FormatGrammar,
}

/// Mapping from field tag to format grammar, in declaration order.  The
/// first declaration of a tag wins.
#[derive(Clone, Debug)]
pub struct FieldDictionary {
    pub entries: Vec<DictEntry>,
}

/// The grammar of the first entry declaring `t`, if any.
pub open spec fn spec_lookup(entries: Seq<DictEntry>, t: Seq<u8>) -> Option<FormatGrammar>
    decreases entries.len(),
{
    if entries.len() == 0 {
        Option::None
    } else if entries[0].tag@ == t {
        Option::Some(entries[0].grammar)
    } else {
        spec_lookup(entries.drop_first(), t)
    }
}

/// A tag is found exactly when some entry declares it.
pub proof fn lemma_lookup_contains(entries: Seq<DictEntry>, t: Seq<u8>)
    ensures
        spec_lookup(entries, t) is Some <==> exists|i: int|
            0 <= i < entries.len() && (#[trigger] entries[i]).tag@ == t,
    decreases entries.len(),
{
    if entries.len() > 0 && entries[0].tag@ != t {
        lemma_lookup_contains(entries.drop_first(), t);
        if spec_lookup(entries, t) is Some {
            let i = choose|i: int|
                0 <= i < entries.drop_first().len() && (#[trigger] entries.drop_first()[i]).tag@
                    == t;
            assert(entries[i + 1].tag@ == t);
        }
        if exists|i: int| 0 <= i < entries.len() && (#[trigger] entries[i]).tag@ == t {
            let i = choose|i: int| 0 <= i < entries.len() && (#[trigger] entries[i]).tag@ == t;
            assert(entries.drop_first()[i - 1].tag@ == t);
        }
    }
}

impl FieldDictionary {
    /// The tag `t` was declared.
    pub open spec fn contains_tag(&self, t: Seq<u8>) -> bool {
        exists|i: int| 0 <= i < self.entries@.len() && (#[trigger] self.entries@[i]).tag@ == t
    }

    /// The declared tags, in order.
    pub open spec fn tags(&self) -> Seq<Seq<u8>> {
        self.entries@.map_values(|e: DictEntry| e.tag@)
    }

    pub fn new() -> (d: FieldDictionary)
        ensures
            d.entries@.len() == 0,
    {
        FieldDictionary { entries: Vec::new() }
    }

    /// Declares one more tag, after all earlier declarations.
    pub fn insert(&mut self, tag: Vec<u8>, grammar: FormatGrammar)
        ensures
            final(self).entries@.len() == old(self).entries@.len() + 1,
            final(self).entries@.last().tag@ == tag@,
            final(self).entries@.last().grammar == grammar,
            final(self).entries@.drop_last() == old(self).entries@,
    {
        self.entries.push(DictEntry { tag, grammar });
        proof {
            assert(self.entries@.drop_last() =~= old(self).entries@);
        }
    }

    /// The grammar declared for `tag`, or `UnknownFieldTag` when the Data
    /// Descriptive Record never declared it.
    pub fn grammar_for(&self, tag: &[u8]) -> (r: Result<&FormatGrammar, ParseError>)
        ensures
            r is Ok <==> self.contains_tag(tag@),
            r is Err ==> (r matches Err(e) && e == ParseError::UnknownFieldTag),
            r matches Ok(g) ==> spec_lookup(self.entries@, tag@) == Option::Some(*g),
    {
        proof {
            lemma_lookup_contains(self.entries@, tag@);
            assert(self.entries@.skip(0) =~= self.entries@);
        }
        let n = self.entries.len();
        let mut i: usize = 0;
        while i < n
            invariant
                0 <= i <= n,
                n == self.entries@.len(),
                forall|j: int| 0 <= j < i ==> (#[trigger] self.entries@[j]).tag@ != tag@,
                spec_lookup(self.entries@, tag@) == spec_lookup(
                    self.entries@.skip(i as int),
                    tag@,
                ),
            decreases n - i,
        {
            proof {
                assert(self.entries@.skip(i as int)[0] == self.entries@[i as int]);
                assert(self.entries@.skip(i as int).drop_first() =~= self.entries@.skip(i + 1));
            }
            if bytes_eq(self.entries[i].tag.as_slice(), tag) {
                proof {
                    lemma_lookup_contains(self.entries@, tag@);
                }
                return Ok(&self.entries[i].grammar);
            }
            i = i + 1;
        }
        proof {
            assert(self.entries@.skip(n as int) =~= Seq::<DictEntry>::empty());
            lemma_lookup_contains(self.entries@, tag@);
        }
        Err(ParseError::UnknownFieldTag)
    }
}

} // verus!
