//! The nine classes, in Highlander lineup order.
use crate::error::Error;
use crate::text::{chars_of, lower_s, lowered, same, string_of, trim, trimmed};
use vstd::prelude::*;

verus! {

#[derive(Debug, Clone, Copy, PartialEq, Eq, Structural, Hash, PartialOrd, Ord)]
pub enum TfClass {
    Scout,
    Soldier,
    Pyro,
    Demoman,
    Heavy,
    Engineer,
    Medic,
    Sniper,
    Spy,
}

/// The identifier used in the database and in logs.tf JSON.
pub open spec fn class_id(c: TfClass) -> Seq<char> {
    match c {
        TfClass::Scout => "scout"@,
        TfClass::Soldier => "soldier"@,
        TfClass::Pyro => "pyro"@,
        TfClass::Demoman => "demoman"@,
        TfClass::Heavy => "heavy"@,
        TfClass::Engineer => "engineer"@,
        TfClass::Medic => "medic"@,
        TfClass::Sniper => "sniper"@,
        TfClass::Spy => "spy"@,
    }
}

pub open spec fn class_display(c: TfClass) -> Seq<char> {
    match c {
        TfClass::Scout => "Scout"@,
        TfClass::Soldier => "Soldier"@,
        TfClass::Pyro => "Pyro"@,
        TfClass::Demoman => "Demoman"@,
        TfClass::Heavy => "Heavy"@,
        TfClass::Engineer => "Engineer"@,
        TfClass::Medic => "Medic"@,
        TfClass::Sniper => "Sniper"@,
        TfClass::Spy => "Spy"@,
    }
}

/// The class a lowercased, trimmed name stands for. logs.tf writes Heavy as
/// `heavyweapons`; `demo` and `engie` are the usual short forms.
pub open spec fn class_named(n: Seq<char>) -> Option<TfClass> {
    if n == "scout"@ {
        Some(TfClass::Scout)
    } else if n == "soldier"@ {
        Some(TfClass::Soldier)
    } else if n == "pyro"@ {
        Some(TfClass::Pyro)
    } else if n == "demoman"@ || n == "demo"@ {
        Some(TfClass::Demoman)
    } else if n == "heavyweapons"@ || n == "heavy"@ {
        Some(TfClass::Heavy)
    } else if n == "engineer"@ || n == "engie"@ {
        Some(TfClass::Engineer)
    } else if n == "medic"@ {
        Some(TfClass::Medic)
    } else if n == "sniper"@ {
        Some(TfClass::Sniper)
    } else if n == "spy"@ {
        Some(TfClass::Spy)
    } else {
        None
    }
}

/// What [`TfClass::parse`] makes of `s`: case and surrounding space do not matter.
pub open spec fn parse_class(s: Seq<char>) -> Option<TfClass> {
    class_named(lower_s(trim(s)))
}

/// Highlander lineup order, as a sequence.
pub open spec fn lineup() -> Seq<TfClass> {
    seq![
        TfClass::Scout,
        TfClass::Soldier,
        TfClass::Pyro,
        TfClass::Demoman,
        TfClass::Heavy,
        TfClass::Engineer,
        TfClass::Medic,
        TfClass::Sniper,
        TfClass::Spy,
    ]
}

/// A name of lowercase letters reads back as itself: trimming and lowering
/// change nothing.
pub proof fn lemma_plain_name(s: Seq<char>)
    requires
        forall|i: int| 0 <= i < s.len() ==> crate::text::is_lower(#[trigger] s[i]),
    ensures
        trim(s) == s,
        lower_s(s) == s,
{
    if s.len() > 0 {
        assert(crate::text::is_lower(s[0]));
        assert(crate::text::is_lower(s[s.len() - 1]));
    }
    assert(crate::text::trim_start(s) == s);
    assert(crate::text::trim_end(s) == s);
    assert(lower_s(s) =~= s);
}

/// Every class reads back from the name it is stored under.
pub proof fn lemma_class_round_trip(c: TfClass)
    ensures
        parse_class(class_id(c)) == Some(c),
{
    reveal_strlit("scout");
    reveal_strlit("soldier");
    reveal_strlit("pyro");
    reveal_strlit("demoman");
    reveal_strlit("demo");
    reveal_strlit("heavyweapons");
    reveal_strlit("heavy");
    reveal_strlit("engineer");
    reveal_strlit("engie");
    reveal_strlit("medic");
    reveal_strlit("sniper");
    reveal_strlit("spy");
    lemma_plain_name(class_id(c));
}

/// A class's display name is its stored name with a capital first letter:
/// lowercased it is the stored name, and it reads back as the class.
pub proof fn lemma_display_name(c: TfClass)
    ensures
        lower_s(class_display(c)) == class_id(c),
        parse_class(class_display(c)) == Some(c),
        crate::text::is_upper(class_display(c)[0]),
{
    reveal_strlit("Scout");
    reveal_strlit("Soldier");
    reveal_strlit("Pyro");
    reveal_strlit("Demoman");
    reveal_strlit("Heavy");
    reveal_strlit("Engineer");
    reveal_strlit("Medic");
    reveal_strlit("Sniper");
    reveal_strlit("Spy");
    reveal_strlit("scout");
    reveal_strlit("soldier");
    reveal_strlit("pyro");
    reveal_strlit("demoman");
    reveal_strlit("heavy");
    reveal_strlit("engineer");
    reveal_strlit("medic");
    reveal_strlit("sniper");
    reveal_strlit("spy");
    let d = class_display(c);
    assert(lower_s(d) =~= class_id(c)) by {
        assert forall|i: int| 0 <= i < d.len() implies #[trigger] crate::text::lower(d[i]) == class_id(c)[i] by {
            if i == 0 {
                assert(crate::text::is_upper(d[0]));
            } else {
                assert(crate::text::is_lower(d[i]));
            }
        }
    }
    assert(!crate::text::is_ws(d[0]));
    assert(!crate::text::is_ws(d.last()));
    assert(crate::text::trim_start(d) == d);
    assert(crate::text::trim_end(d) == d);
    lemma_class_round_trip(c);
    lemma_plain_name(class_id(c));
}

fn is_name(n: &[char], name: &str) -> (b: bool)
    ensures
        b == (n@ == name@),
{
    let v = chars_of(name);
    same(n, v.as_slice())
}

impl TfClass {
    /// Highlander lineup order, used for stable sorting in every roster view.
    pub fn all() -> (v: [TfClass; 9])
        ensures
            v@ == lineup(),
    {
        let v = [
            TfClass::Scout,
            TfClass::Soldier,
            TfClass::Pyro,
            TfClass::Demoman,
            TfClass::Heavy,
            TfClass::Engineer,
            TfClass::Medic,
            TfClass::Sniper,
            TfClass::Spy,
        ];
        assert(v@ =~= lineup());
        v
    }

    /// The identifier used in the database and in logs.tf JSON. logs.tf calls
    /// Heavy `heavyweapons`; [`TfClass::parse`] accepts both spellings but the
    /// short one is what is stored.
    pub fn as_str(self) -> (r: &'static str)
        ensures
            r@ == class_id(self),
    {
        match self {
            TfClass::Scout => "scout",
            TfClass::Soldier => "soldier",
            TfClass::Pyro => "pyro",
            TfClass::Demoman => "demoman",
            TfClass::Heavy => "heavy",
            TfClass::Engineer => "engineer",
            TfClass::Medic => "medic",
            TfClass::Sniper => "sniper",
            TfClass::Spy => "spy",
        }
    }

    pub fn display_name(self) -> (r: &'static str)
        ensures
            r@ == class_display(self),
    {
        match self {
            TfClass::Scout => "Scout",
            TfClass::Soldier => "Soldier",
            TfClass::Pyro => "Pyro",
            TfClass::Demoman => "Demoman",
            TfClass::Heavy => "Heavy",
            TfClass::Engineer => "Engineer",
            TfClass::Medic => "Medic",
            TfClass::Sniper => "Sniper",
            TfClass::Spy => "Spy",
        }
    }

    /// A class by name, in any case, with or without surrounding space.
    /// Anything else is refused, naming what was read.
    pub fn parse(s: &str) -> (r: Result<TfClass, Error>)
        ensures
            parse_class(s@) matches Some(c) ==> r == Ok::<TfClass, Error>(c),
            parse_class(s@) is None ==> (r matches Err(Error::UnknownClass(m)) && m@ == lower_s(
                trim(s@),
            )),
    {
        let cs = chars_of(s);
        let t = trimmed(cs.as_slice());
        let n = lowered(t.as_slice());
        match Self::named(cs.as_slice()) {
            Some(c) => Ok(c),
            None => Err(Error::UnknownClass(string_of(n.as_slice()))),
        }
    }

    /// A class by name, in any case, with or without surrounding space.
    pub fn named(s: &[char]) -> (r: Option<TfClass>)
        ensures
            r == parse_class(s@),
    {
        let t = trimmed(s);
        let n = lowered(t.as_slice());
        let n = n.as_slice();
        if is_name(n, "scout") {
            Some(TfClass::Scout)
        } else if is_name(n, "soldier") {
            Some(TfClass::Soldier)
        } else if is_name(n, "pyro") {
            Some(TfClass::Pyro)
        } else if is_name(n, "demoman") || is_name(n, "demo") {
            Some(TfClass::Demoman)
        } else if is_name(n, "heavyweapons") || is_name(n, "heavy") {
            Some(TfClass::Heavy)
        } else if is_name(n, "engineer") || is_name(n, "engie") {
            Some(TfClass::Engineer)
        } else if is_name(n, "medic") {
            Some(TfClass::Medic)
        } else if is_name(n, "sniper") {
            Some(TfClass::Sniper)
        } else if is_name(n, "spy") {
            Some(TfClass::Spy)
        } else {
            None
        }
    }
}

} // verus!
