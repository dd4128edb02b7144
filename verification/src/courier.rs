//! Couriers, the kinds of tracking number each of them issues, and the
//! search for the kind that a given tracking number belongs to.
use vstd::prelude::*;
use vstd::utf8::{decode_utf8, valid_utf8};
use crate::pattern::{
    compile_pattern, pattern_captures, pattern_is_match, pcre_captures, pcre_is_match,
    InvalidPattern, PatternSource,
};
use crate::text::{
    chars_of, fill_placeholder, fill_url, has_no_placeholder, has_no_whitespace,
    lemma_remove_whitespace_clean, lemma_fill_contains_value,
    lemma_fill_leaves_no_placeholder, occurs_in, remove_whitespace, strip_whitespace,
};
use crate::validators::{Luhn, Mod10, Mod37_36, Mod7, S10, SumProduct, Validator};

verus! {

broadcast use vstd::string::group_string_axioms;

/// The check-digit scheme of a kind of tracking number.
pub enum Checksum {
    Mod10 { evens_multiplier: u32, odds_multiplier: u32, reverse: bool },
    Mod7,
    SumProduct { weightings: Vec<u32>, modulo1: u32, modulo2: u32 },
    S10,
    Mod37_36,
    Luhn,
}

/// Text to put in front of a serial number that matches a pattern.
pub struct PrependIf {
    pub matches_regex: String,
    pub content: String,
}

/// How a serial number is rewritten before its check digit is checked.
pub struct SerialNumberFormat {
    pub prepend_if: Option<PrependIf>,
}

/// Lookup tables in which captured values must be found.
pub struct AdditionalValidation {
    pub exists: Option<Vec<String>>,
}

/// The checks that a tracking number undergoes once its format matches.
pub struct Validation {
    pub checksum: Option<Checksum>,
    pub serial_number_format: Option<SerialNumberFormat>,
    pub additional: Option<AdditionalValidation>,
}

/// One row of a lookup table: a value, or a pattern, that a captured value
/// may equal or match.
pub struct LookupEntry {
    pub matches: Option<String>,
    pub matches_regex: Option<String>,
}

/// A named lookup table over one capture group of the pattern.
pub struct AdditionalLookup {
    pub name: String,
    pub regex_group_name: String,
    pub lookup: Vec<LookupEntry>,
}

/// A kind of tracking number issued by a courier.
pub struct TrackingNumber {
    /// The service's name.
    pub name: String,
    /// The anchored pattern that numbers of this kind match.
    pub regex: String,
    /// The tracking page, with `%s` where the number goes.
    pub tracking_url: Option<String>,
    pub validation: Validation,
    pub additional: Vec<AdditionalLookup>,
}

/// A courier and the kinds of tracking number it issues.
pub struct Courier {
    pub name: String,
    pub code: String,
    pub tracking_numbers: Vec<TrackingNumber>,
}

/// What is known of a tracking number once its kind is found.
#[derive(Debug)]
pub struct TrackingResult {
    pub courier: String,
    pub service: String,
    pub tracking_number: String,
    pub tracking_url: String,
}

// ---------------------------------------------------------------------------
// Checksums
// ---------------------------------------------------------------------------

impl Checksum {
    /// The scheme can be run: its moduli are not zero.
    pub open spec fn well_formed(&self) -> bool {
        match self {
            Checksum::SumProduct { modulo1, modulo2, .. } => *modulo1 > 0 && *modulo2 > 0,
            _ => true,
        }
    }

    /// The scheme can be run on `serial` and `cd`: a sum-of-products scheme
    /// divides by its moduli only once `cd` is a number and `serial` has one
    /// digit per weighting.
    pub open spec fn defined_on(&self, serial: Seq<char>, cd: Seq<char>) -> bool {
        match self {
            Checksum::SumProduct { weightings, modulo1, modulo2 } => SumProduct {
                weightings: *weightings,
                modulo1: *modulo1,
                modulo2: *modulo2,
            }.defined_on(serial, cd),
            _ => true,
        }
    }

    /// Whether the scheme accepts `serial` with the check digits `cd`.
    pub open spec fn accepts(&self, serial: Seq<char>, cd: Seq<char>) -> bool {
        match self {
            Checksum::Mod10 { evens_multiplier, odds_multiplier, reverse } => Mod10 {
                evens_multiplier: *evens_multiplier,
                odds_multiplier: *odds_multiplier,
                reverse: *reverse,
            }.accepts(serial, cd),
            Checksum::Mod7 => Mod7.accepts(serial, cd),
            Checksum::SumProduct { weightings, modulo1, modulo2 } => SumProduct {
                weightings: *weightings,
                modulo1: *modulo1,
                modulo2: *modulo2,
            }.accepts(serial, cd),
            Checksum::S10 => S10.accepts(serial, cd),
            Checksum::Mod37_36 => Mod37_36.accepts(serial, cd),
            Checksum::Luhn => Luhn.accepts(serial, cd),
        }
    }

    /// Executable `well_formed`.
    pub fn is_well_formed(&self) -> (r: bool)
        ensures
            r == self.well_formed(),
    {
        match self {
            Checksum::SumProduct { modulo1, modulo2, .. } => *modulo1 > 0 && *modulo2 > 0,
            _ => true,
        }
    }

    /// Checks `serial` against `cd` by this scheme.
    pub fn validate(&self, serial: &str, cd: &str) -> (r: bool)
        requires
            self.defined_on(serial@, cd@),
        ensures
            r == self.accepts(serial@, cd@),
    {
        match self {
            Checksum::Mod10 { evens_multiplier, odds_multiplier, reverse } => Mod10 {
                evens_multiplier: *evens_multiplier,
                odds_multiplier: *odds_multiplier,
                reverse: *reverse,
            }.validate(serial, cd),
            Checksum::Mod7 => Mod7.validate(serial, cd),
            Checksum::SumProduct { weightings, modulo1, modulo2 } => {
                let copy = copy_weightings(weightings);
                let scheme = SumProduct { weightings: copy, modulo1: *modulo1, modulo2: *modulo2 };
                assert(scheme.defined_on(serial@, cd@) == SumProduct {
                    weightings: *weightings,
                    modulo1: *modulo1,
                    modulo2: *modulo2,
                }.defined_on(serial@, cd@));
                let r = scheme.validate(serial, cd);
                assert(scheme.accepts(serial@, cd@) == SumProduct {
                    weightings: *weightings,
                    modulo1: *modulo1,
                    modulo2: *modulo2,
                }.accepts(serial@, cd@));
                r
            },
            Checksum::S10 => S10.validate(serial, cd),
            Checksum::Mod37_36 => Mod37_36.validate(serial, cd),
            Checksum::Luhn => Luhn.validate(serial, cd),
        }
    }
}

/// A copy of `w`.
fn copy_weightings(w: &Vec<u32>) -> (r: Vec<u32>)
    ensures
        r@ == w@,
{
    let mut r: Vec<u32> = Vec::new();
    let n = w.len();
    let mut i: usize = 0;
    while i < n
        invariant
            n == w@.len(),
            i <= n,
            r@ == w@.take(i as int),
        decreases n - i,
    {
        r.push(w[i]);
        i = i + 1;
        assert(r@ =~= w@.take(i as int));
    }
    assert(w@.take(n as int) =~= w@);
    r
}

// ---------------------------------------------------------------------------
// Captured text
// ---------------------------------------------------------------------------

/// Calls `std::str::from_utf8`, which succeeds exactly on valid UTF-8, the
/// text then being what the bytes encode.
#[verifier::external_body]
fn utf8_str(bytes: &[u8]) -> (r: Option<&str>)
    ensures
        r is Some <==> valid_utf8(bytes@),
        r matches Some(s) ==> s@ == decode_utf8(bytes@),
{
    std::str::from_utf8(bytes).ok()
}

/// The text of a captured group: its bytes read as UTF-8, with whitespace
/// taken out; nothing when the group is missing or not UTF-8.
pub open spec fn group_text(group: Option<Seq<u8>>) -> Option<Seq<char>> {
    match group {
        Some(bytes) => if valid_utf8(bytes) {
            Some(remove_whitespace(decode_utf8(bytes)))
        } else {
            None
        },
        None => None,
    }
}

/// The text of a captured group, whitespace taken out.
pub fn get_named_capture(group: &Option<Vec<u8>>) -> (r: Option<String>)
    ensures
        r matches Some(s) ==> group_text(group.deep_view()) == Some(s@),
        r is None ==> group_text(group.deep_view()) is None,
{
    match group {
        Some(bytes) => {
            assert(bytes.deep_view() == bytes@);
            match utf8_str(bytes.as_slice()) {
                Some(s) => {
                    let chars = chars_of(s);
                    Some(strip_whitespace(&chars))
                },
                None => None,
            }
        },
        None => None,
    }
}

/// The names of the groups that hold the serial number and the check digit.
pub open spec fn serial_and_check_names() -> Seq<Seq<char>> {
    seq!["SerialNumber"@, "CheckDigit"@]
}

/// The serial number and check digit of a capture outcome for
/// `serial_and_check_names`.
pub open spec fn serial_and_check(captured: Option<Option<Seq<Option<Seq<u8>>>>>) -> Option<
    (Seq<char>, Seq<char>),
> {
    match captured {
        Some(Some(groups)) => if groups.len() == 2 {
            match (group_text(groups[0]), group_text(groups[1])) {
                (Some(serial), Some(cd)) => Some((serial, cd)),
                _ => None,
            }
        } else {
            None
        },
        _ => None,
    }
}

/// The serial number and check digit out of the outcome of capturing the
/// groups `SerialNumber` and `CheckDigit`.
pub fn serial_and_check_digit(captured: &Option<Option<Vec<Option<Vec<u8>>>>>) -> (r: Option<
    (String, String),
>)
    ensures
        r matches Some((s, c)) ==> serial_and_check(captured.deep_view()) == Some((s@, c@)),
        r is None ==> serial_and_check(captured.deep_view()) is None,
{
    match captured {
        Some(Some(groups)) => {
            if groups.len() != 2 {
                return None;
            }
            assert(groups.deep_view()[0] == groups@[0].deep_view());
            assert(groups.deep_view()[1] == groups@[1].deep_view());
            let serial = match get_named_capture(&groups[0]) {
                Some(s) => s,
                None => return None,
            };
            let cd = match get_named_capture(&groups[1]) {
                Some(c) => c,
                None => return None,
            };
            Some((serial, cd))
        },
        _ => None,
    }
}

/// `serial`, with `content` put in front when `matched` is a match.
pub fn prepend_if_matched(content: &String, serial: &String, matched: Option<bool>) -> (r: String)
    ensures
        r@ == (if matched == Some(true) {
            content@ + serial@
        } else {
            serial@
        }),
{
    match matched {
        Some(true) => {
            let mut out = content.clone();
            out.append(serial.as_str());
            out
        },
        _ => serial.clone(),
    }
}

// ---------------------------------------------------------------------------
// Lookup tables
// ---------------------------------------------------------------------------

impl LookupEntry {
    /// The entry admits the value `v`: it equals the entry's value, or the
    /// entry's pattern compiles and matches it.
    pub open spec fn admits(&self, v: Seq<char>) -> bool {
        ||| self.matches matches Some(m) && m@ == v
        ||| self.matches_regex matches Some(r) && pcre_is_match(r@, v) == Some(true)
    }

    /// Executable `admits`.
    pub fn check(&self, v: &String) -> (r: bool)
        ensures
            r == self.admits(v@),
    {
        if let Some(m) = &self.matches {
            if *m == *v {
                return true;
            }
        }
        if let Some(re) = &self.matches_regex {
            if let Some(true) = pattern_is_match(re.as_str(), v.as_str()) {
                return true;
            }
        }
        false
    }
}

impl AdditionalLookup {
    /// Some entry of the table admits `v`.
    pub open spec fn admits(&self, v: Seq<char>) -> bool {
        exists|k: int| 0 <= k < self.lookup@.len() && (#[trigger] self.lookup@[k]).admits(v)
    }

    /// Executable `admits`.
    pub fn contains(&self, v: &String) -> (r: bool)
        ensures
            r == self.admits(v@),
    {
        let n = self.lookup.len();
        let mut k: usize = 0;
        while k < n
            invariant
                n == self.lookup@.len(),
                k <= n,
                forall|j: int| 0 <= j < k ==> !(#[trigger] self.lookup@[j]).admits(v@),
            decreases n - k,
        {
            if self.lookup[k].check(v) {
                return true;
            }
            k = k + 1;
        }
        false
    }
}

/// The index of the first table among `lookups` named `name`.
pub open spec fn first_lookup(lookups: Seq<AdditionalLookup>, name: Seq<char>) -> Option<int>
    decreases lookups.len(),
{
    if lookups.len() == 0 {
        None
    } else {
        match first_lookup(lookups.drop_last(), name) {
            Some(k) => Some(k),
            None => if lookups.last().name@ == name {
                Some(lookups.len() - 1)
            } else {
                None
            },
        }
    }
}

/// `first_lookup` finds the first table with the name, and finds none only
/// when no table has it.
pub proof fn lemma_first_lookup(lookups: Seq<AdditionalLookup>, name: Seq<char>)
    ensures
        first_lookup(lookups, name) matches Some(k) ==> {
            &&& 0 <= k < lookups.len()
            &&& lookups[k].name@ == name
            &&& forall|j: int| 0 <= j < k ==> (#[trigger] lookups[j]).name@ != name
        },
        first_lookup(lookups, name) is None ==> forall|j: int|
            0 <= j < lookups.len() ==> (#[trigger] lookups[j]).name@ != name,
    decreases lookups.len(),
{
    if lookups.len() > 0 {
        let prefix = lookups.drop_last();
        lemma_first_lookup(prefix, name);
        match first_lookup(prefix, name) {
            Some(k) => {
                assert(lookups[k] == prefix[k]);
                assert forall|j: int| 0 <= j < k implies (#[trigger] lookups[j]).name@ != name by {
                    assert(lookups[j] == prefix[j]);
                }
            },
            None => {
                assert forall|j: int| 0 <= j < lookups.len() - 1 implies (
                #[trigger] lookups[j]).name@ != name by {
                    assert(lookups[j] == prefix[j]);
                }
            },
        }
    }
}

/// The index of the first table among `lookups` named `name`.
fn find_lookup(lookups: &Vec<AdditionalLookup>, name: &String) -> (r: Option<usize>)
    ensures
        r matches Some(k) ==> first_lookup(lookups@, name@) == Some(k as int) && k
            < lookups@.len(),
        r is None ==> first_lookup(lookups@, name@) is None,
{
    proof {
        lemma_first_lookup(lookups@, name@);
    }
    let n = lookups.len();
    let mut k: usize = 0;
    while k < n
        invariant
            n == lookups@.len(),
            k <= n,
            forall|j: int| 0 <= j < k ==> (#[trigger] lookups@[j]).name@ != name@,
            first_lookup(lookups@, name@) matches Some(w) ==> {
                &&& 0 <= w < lookups@.len()
                &&& lookups@[w].name@ == name@
                &&& forall|j: int| 0 <= j < w ==> (#[trigger] lookups@[j]).name@ != name@
            },
            first_lookup(lookups@, name@) is None ==> forall|j: int|
                0 <= j < lookups@.len() ==> (#[trigger] lookups@[j]).name@ != name@,
        decreases n - k,
    {
        if lookups[k].name == *name {
            assert(first_lookup(lookups@, name@) == Some(k as int)) by {
                assert(lookups@[k as int].name@ == name@);
                if let Some(w) = first_lookup(lookups@, name@) {
                    if w < k {
                        assert(lookups@[w].name@ != name@);
                    } else if w > k {
                        assert(lookups@[k as int].name@ != name@);
                    }
                }
            }
            return Some(k);
        }
        k = k + 1;
    }
    proof {
        if let Some(w) = first_lookup(lookups@, name@) {
            assert(lookups@[w].name@ != name@);
        }
    }
    None
}

// ---------------------------------------------------------------------------
// Kinds of tracking number
// ---------------------------------------------------------------------------

impl TrackingNumber {
    /// A kind of tracking number whose pattern is built from `source`:
    /// anchored, and refused when PCRE2 does not compile it.
    pub fn new(
        name: String,
        source: &PatternSource,
        tracking_url: Option<String>,
        validation: Validation,
        additional: Vec<AdditionalLookup>,
    ) -> (r: Result<TrackingNumber, InvalidPattern>)
        ensures
            match r {
                Ok(tn) => {
                    &&& tn.name == name
                    &&& tn.regex@ == crate::pattern::anchor(crate::pattern::source_text(*source))
                    &&& crate::pattern::pcre_compiles(tn.regex@)
                    &&& tn.tracking_url == tracking_url
                    &&& tn.validation == validation
                    &&& tn.additional == additional
                },
                Err(e) => e.pattern@ == crate::pattern::anchor(crate::pattern::source_text(*source))
                    && crate::pattern::pcre_compile_error(e.pattern@) == Some(e.reason@),
            },
    {
        let regex = compile_pattern(source)?;
        Ok(TrackingNumber { name, regex, tracking_url, validation, additional })
    }

    /// The kind's checksum, if any, can be run.
    pub open spec fn well_formed(&self) -> bool {
        self.validation.checksum matches Some(c) ==> c.well_formed()
    }

    /// Executable `well_formed`.
    pub fn is_well_formed(&self) -> (r: bool)
        ensures
            r == self.well_formed(),
    {
        match &self.validation.checksum {
            Some(c) => c.is_well_formed(),
            None => true,
        }
    }

    /// The number matches the kind's pattern.
    pub open spec fn format_matches(&self, t: Seq<char>) -> bool {
        pcre_is_match(self.regex@, t) == Some(true)
    }

    /// The serial number and check digit that the pattern captures in `t`.
    pub open spec fn captured_serial_and_check(&self, t: Seq<char>) -> Option<
        (Seq<char>, Seq<char>),
    > {
        serial_and_check(pcre_captures(self.regex@, t, serial_and_check_names()))
    }

    /// `serial` as the kind's serial-number format rewrites it.
    pub open spec fn formatted_serial(&self, serial: Seq<char>) -> Seq<char> {
        match self.validation.serial_number_format {
            Some(SerialNumberFormat { prepend_if: Some(p) }) => if pcre_is_match(
                p.matches_regex@,
                serial,
            ) == Some(true) {
                p.content@ + serial
            } else {
                serial
            },
            _ => serial,
        }
    }

    /// The check digit of `t` agrees with its serial number, if the kind has
    /// a checksum.
    pub open spec fn checksum_holds(&self, t: Seq<char>) -> bool {
        match self.validation.checksum {
            None => true,
            Some(c) => match self.captured_serial_and_check(t) {
                None => false,
                Some((serial, cd)) => c.accepts(self.formatted_serial(serial), cd),
            },
        }
    }

    /// The checksum can be run on what the pattern captures in `t`: the
    /// kind has none, captures nothing there, or its scheme is defined on
    /// the captured (and formatted) serial and check digit.
    pub open spec fn checksum_defined(&self, t: Seq<char>) -> bool {
        match self.validation.checksum {
            None => true,
            Some(c) => match self.captured_serial_and_check(t) {
                None => true,
                Some((serial, cd)) => c.defined_on(self.formatted_serial(serial), cd),
            },
        }
    }

    /// The tables that the listed names refer to, where every name has one.
    pub open spec fn tables_found(&self, items: Seq<String>) -> bool {
        forall|i: int| 0 <= i < items.len() ==> (#[trigger] first_lookup(self.additional@, items[i]@)) is Some
    }

    /// The table that the `i`-th listed name refers to.
    pub open spec fn table_for(&self, items: Seq<String>, i: int) -> AdditionalLookup {
        self.additional@[first_lookup(self.additional@, items[i]@).unwrap()]
    }

    /// The groups that the listed tables read.
    pub open spec fn group_names(&self, items: Seq<String>) -> Seq<Seq<char>> {
        Seq::new(items.len(), |i: int| self.table_for(items, i).regex_group_name@)
    }

    /// Every captured group's text is admitted by its table.
    pub open spec fn groups_admitted(
        &self,
        items: Seq<String>,
        captured: Option<Option<Seq<Option<Seq<u8>>>>>,
    ) -> bool {
        match captured {
            Some(Some(groups)) => groups.len() == items.len() && forall|i: int|
                0 <= i < items.len() ==> match group_text(#[trigger] groups[i]) {
                    Some(v) => self.table_for(items, i).admits(v),
                    None => false,
                },
            _ => false,
        }
    }

    /// The values that `t` holds in the groups the listed tables read are
    /// found in those tables, if the kind lists any.
    pub open spec fn additional_holds(&self, t: Seq<char>) -> bool {
        match self.validation.additional {
            Some(AdditionalValidation { exists: Some(items) }) => {
                &&& self.tables_found(items@)
                &&& self.groups_admitted(
                    items@,
                    pcre_captures(self.regex@, t, self.group_names(items@)),
                )
            },
            _ => true,
        }
    }

    /// `t` is a tracking number of this kind.
    pub open spec fn accepts(&self, t: Seq<char>) -> bool {
        &&& self.format_matches(t)
        &&& self.checksum_holds(t)
        &&& self.additional_holds(t)
    }

    /// The serial number and check digit that the pattern captures in `t`,
    /// whitespace taken out.
    pub fn extract_captures(&self, t: &str) -> (r: Option<(String, String)>)
        ensures
            r matches Some((s, c)) ==> self.captured_serial_and_check(t@) == Some((s@, c@)),
            r is None ==> self.captured_serial_and_check(t@) is None,
    {
        let names: Vec<String> = vec![
            String::from_str("SerialNumber"),
            String::from_str("CheckDigit"),
        ];
        assert(names.deep_view() =~= serial_and_check_names());
        let captured = pattern_captures(self.regex.as_str(), t, &names);
        serial_and_check_digit(&captured)
    }

    /// `serial` as the kind's serial-number format rewrites it.
    pub fn apply_serial_number_format(&self, serial: &String) -> (r: String)
        ensures
            r@ == self.formatted_serial(serial@),
    {
        if let Some(format) = &self.validation.serial_number_format {
            if let Some(prepend) = &format.prepend_if {
                let matched = pattern_is_match(prepend.matches_regex.as_str(), serial.as_str());
                return prepend_if_matched(&prepend.content, serial, matched);
            }
        }
        serial.clone()
    }

    /// Whether `t` matches the kind's pattern.
    pub fn check_format(&self, t: &str) -> (r: bool)
        ensures
            r == self.format_matches(t@),
    {
        match pattern_is_match(self.regex.as_str(), t) {
            Some(true) => true,
            _ => false,
        }
    }

    /// Whether the check digit of `t` agrees with its serial number.
    pub fn check_validation(&self, t: &str) -> (r: bool)
        requires
            self.checksum_defined(t@),
        ensures
            r == self.checksum_holds(t@),
    {
        let checksum = match &self.validation.checksum {
            Some(c) => c,
            None => return true,
        };
        let (serial, cd) = match self.extract_captures(t) {
            Some(p) => p,
            None => return false,
        };
        let serial = self.apply_serial_number_format(&serial);
        checksum.validate(serial.as_str(), cd.as_str())
    }

    /// Whether the texts of `captured`, the outcome of capturing the groups
    /// of the tables listed at `found`, are admitted by their tables.
    pub fn captured_values_admitted(
        &self,
        items: &Vec<String>,
        found: &Vec<usize>,
        captured: &Option<Option<Vec<Option<Vec<u8>>>>>,
    ) -> (r: bool)
        requires
            found@.len() == items@.len(),
            forall|i: int|
                0 <= i < items@.len() ==> first_lookup(self.additional@, items@[i]@) == Some(
                    #[trigger] found@[i] as int,
                ),
        ensures
            r == self.groups_admitted(items@, captured.deep_view()),
    {
        let groups = match captured {
            Some(Some(groups)) => groups,
            _ => return false,
        };
        let n = items.len();
        if groups.len() != n {
            return false;
        }
        let mut i: usize = 0;
        while i < n
            invariant
                n == items@.len(),
                n == groups@.len(),
                n == found@.len(),
                captured.deep_view() == Some(Some(groups.deep_view())),
                forall|i: int|
                    0 <= i < items@.len() ==> first_lookup(self.additional@, items@[i]@) == Some(
                        #[trigger] found@[i] as int,
                    ),
                i <= n,
                forall|j: int|
                    0 <= j < i ==> match group_text(#[trigger] groups.deep_view()[j]) {
                        Some(v) => self.table_for(items@, j).admits(v),
                        None => false,
                    },
            decreases n - i,
        {
            assert(groups.deep_view()[i as int] == groups@[i as int].deep_view());
            let idx = found[i];
            proof {
                lemma_first_lookup(self.additional@, items@[i as int]@);
            }
            assert(first_lookup(self.additional@, items@[i as int]@) == Some(idx as int));
            assert(idx < self.additional@.len());
            let value = match get_named_capture(&groups[i]) {
                Some(v) => v,
                None => return false,
            };
            if !self.additional[idx].contains(&value) {
                return false;
            }
            i = i + 1;
        }
        true
    }

    /// Whether the values `t` holds in the listed groups are found in their
    /// lookup tables.
    pub fn check_additional(&self, t: &str) -> (r: bool)
        ensures
            r == self.additional_holds(t@),
    {
        let additional_validation = match &self.validation.additional {
            Some(a) => a,
            None => return true,
        };
        let items = match &additional_validation.exists {
            Some(list) => list,
            None => return true,
        };
        let n = items.len();
        let mut found: Vec<usize> = Vec::new();
        let mut names: Vec<String> = Vec::new();
        let mut i: usize = 0;
        while i < n
            invariant
                self.validation.additional == Some(*additional_validation),
                additional_validation.exists == Some(*items),
                n == items@.len(),
                i <= n,
                found@.len() == i,
                names@.len() == i,
                forall|j: int|
                    0 <= j < i ==> first_lookup(self.additional@, items@[j]@) == Some(
                        #[trigger] found@[j] as int,
                    ),
                forall|j: int|
                    0 <= j < i ==> (#[trigger] names@[j])@ == self.table_for(items@, j).regex_group_name@,
            decreases n - i,
        {
            let k = match find_lookup(&self.additional, &items[i]) {
                Some(k) => k,
                None => {
                    assert(!self.tables_found(items@)) by {
                        assert(first_lookup(self.additional@, items@[i as int]@) is None);
                    }
                    return false;
                },
            };
            found.push(k);
            names.push(self.additional[k].regex_group_name.clone());
            i = i + 1;
        }
        assert forall|j: int| 0 <= j < items@.len() implies (#[trigger] first_lookup(
            self.additional@,
            items@[j]@,
        )) is Some by {
            assert(first_lookup(self.additional@, items@[j]@) == Some(found@[j] as int));
        }
        assert(self.tables_found(items@));
        assert(names.deep_view() =~= self.group_names(items@));
        let captured = pattern_captures(self.regex.as_str(), t, &names);
        self.captured_values_admitted(items, &found, &captured)
    }

    /// Whether `t` is a tracking number of this kind.
    pub fn is_valid(&self, t: &str) -> (r: bool)
        requires
            self.format_matches(t@) ==> self.checksum_defined(t@),
        ensures
            r == self.accepts(t@),
    {
        self.check_format(t) && self.check_validation(t) && self.check_additional(t)
    }
}

/// A kind whose checksum has no zero modulus can check every number.
proof fn lemma_well_formed_checksum_defined(tn: TrackingNumber, t: Seq<char>)
    requires
        tn.well_formed(),
    ensures
        tn.checksum_defined(t),
{
}

// ---------------------------------------------------------------------------
// Couriers
// ---------------------------------------------------------------------------

impl Courier {
    /// Every kind of the courier is well formed.
    pub open spec fn well_formed(&self) -> bool {
        forall|j: int| 0 <= j < self.tracking_numbers@.len() ==> (#[trigger] self.tracking_numbers@[j]).well_formed()
    }

    /// Executable `well_formed`.
    pub fn is_well_formed(&self) -> (r: bool)
        ensures
            r == self.well_formed(),
    {
        let n = self.tracking_numbers.len();
        let mut j: usize = 0;
        while j < n
            invariant
                n == self.tracking_numbers@.len(),
                j <= n,
                forall|k: int| 0 <= k < j ==> (#[trigger] self.tracking_numbers@[k]).well_formed(),
            decreases n - j,
        {
            if !self.tracking_numbers[j].is_well_formed() {
                return false;
            }
            j = j + 1;
        }
        true
    }
}

/// Every courier is well formed.
pub open spec fn couriers_well_formed(couriers: Seq<Courier>) -> bool {
    forall|i: int| 0 <= i < couriers.len() ==> (#[trigger] couriers[i]).well_formed()
}

/// The `j`-th kind of the `i`-th courier accepts `t`.
pub open spec fn kind_accepts(couriers: Seq<Courier>, i: int, j: int, t: Seq<char>) -> bool {
    &&& 0 <= i < couriers.len()
    &&& 0 <= j < couriers[i].tracking_numbers@.len()
    &&& couriers[i].tracking_numbers@[j].accepts(t)
}

/// The `j`-th kind of the `i`-th courier is the first, in the order of the
/// couriers and then of their kinds, to accept `t`.
pub open spec fn is_first_match(couriers: Seq<Courier>, i: int, j: int, t: Seq<char>) -> bool {
    &&& kind_accepts(couriers, i, j, t)
    &&& forall|i2: int, j2: int|
        #![trigger kind_accepts(couriers, i2, j2, t)]
        0 <= i2 < i ==> !kind_accepts(couriers, i2, j2, t)
    &&& forall|j2: int| 0 <= j2 < j ==> !kind_accepts(couriers, i, j2, t)
}

/// `r` is what is reported of `t` as a number of the kind `tn` of `courier`.
pub open spec fn reports(r: TrackingResult, courier: Courier, tn: TrackingNumber, t: Seq<char>) -> bool {
    &&& r.courier@ == courier.name@
    &&& r.service@ == tn.name@
    &&& r.tracking_number@ == t
    &&& r.tracking_url@ == match tn.tracking_url {
        Some(url) => fill_placeholder(url@, t),
        None => Seq::<char>::empty(),
    }
}

/// The result for `t` as a number of the kind `tn` of `courier`.
fn result_for(courier: &Courier, tn: &TrackingNumber, t: &str) -> (r: TrackingResult)
    ensures
        reports(r, *courier, *tn, t@),
{
    let tracking_url = match &tn.tracking_url {
        Some(url) => fill_url(url.as_str(), t),
        None => String::new(),
    };
    TrackingResult {
        courier: courier.name.clone(),
        service: tn.name.clone(),
        tracking_number: String::from_str(t),
        tracking_url,
    }
}

/// Finds the first kind of tracking number, over the couriers in order and
/// each courier's kinds in order, that `trk_num` belongs to.
pub fn track(couriers: &Vec<Courier>, trk_num: &str) -> (r: Option<TrackingResult>)
    requires
        couriers_well_formed(couriers@),
    ensures
        match r {
            Some(res) => exists|i: int, j: int|
                is_first_match(couriers@, i, j, trk_num@) && reports(
                    res,
                    couriers@[i],
                    couriers@[i].tracking_numbers@[j],
                    trk_num@,
                ),
            None => forall|i: int, j: int| !kind_accepts(couriers@, i, j, trk_num@),
        },
{
    let n = couriers.len();
    let mut i: usize = 0;
    while i < n
        invariant
            n == couriers@.len(),
            couriers_well_formed(couriers@),
            i <= n,
            forall|i2: int, j2: int|
                #![trigger kind_accepts(couriers@, i2, j2, trk_num@)]
                0 <= i2 < i ==> !kind_accepts(couriers@, i2, j2, trk_num@),
        decreases n - i,
    {
        let courier = &couriers[i];
        assert(courier.well_formed());
        let m = courier.tracking_numbers.len();
        let mut j: usize = 0;
        while j < m
            invariant
                n == couriers@.len(),
                i < n,
                *courier == couriers@[i as int],
                courier.well_formed(),
                m == courier.tracking_numbers@.len(),
                j <= m,
                forall|i2: int, j2: int|
                    #![trigger kind_accepts(couriers@, i2, j2, trk_num@)]
                    0 <= i2 < i ==> !kind_accepts(couriers@, i2, j2, trk_num@),
                forall|j2: int| 0 <= j2 < j ==> !kind_accepts(couriers@, i as int, j2, trk_num@),
            decreases m - j,
        {
            let tn = &courier.tracking_numbers[j];
            proof {
                lemma_well_formed_checksum_defined(*tn, trk_num@);
            }
            if tn.is_valid(trk_num) {
                let res = result_for(courier, tn, trk_num);
                assert(is_first_match(couriers@, i as int, j as int, trk_num@));
                return Some(res);
            }
            j = j + 1;
        }
        i = i + 1;
    }
    None
}

/// Law: at most one kind is the first to accept a number.
pub proof fn lemma_first_match_unique(
    couriers: Seq<Courier>,
    i1: int,
    j1: int,
    i2: int,
    j2: int,
    t: Seq<char>,
)
    requires
        is_first_match(couriers, i1, j1, t),
        is_first_match(couriers, i2, j2, t),
    ensures
        i1 == i2 && j1 == j2,
{
    if i1 < i2 {
        assert(!kind_accepts(couriers, i1, j1, t));
    } else if i2 < i1 {
        assert(!kind_accepts(couriers, i2, j2, t));
    } else if j1 < j2 {
        assert(!kind_accepts(couriers, i1, j1, t));
    } else if j2 < j1 {
        assert(!kind_accepts(couriers, i2, j2, t));
    }
}

/// Law: when the kind's tracking page has the `%s` placeholder, the URL
/// reported for a number holds the number.
pub proof fn lemma_reported_url_holds_number(
    r: TrackingResult,
    courier: Courier,
    tn: TrackingNumber,
    t: Seq<char>,
)
    requires
        reports(r, courier, tn, t),
        tn.tracking_url matches Some(url) && occurs_in(url@, seq!['%', 's']),
    ensures
        occurs_in(r.tracking_url@, t),
{
    lemma_fill_contains_value(tn.tracking_url.unwrap()@, t);
}

/// Law: for a non-empty number that holds no `%` and does not begin with
/// `s`, the URL reported for it has no placeholder left.
pub proof fn lemma_reported_url_has_no_placeholder(
    r: TrackingResult,
    courier: Courier,
    tn: TrackingNumber,
    t: Seq<char>,
)
    requires
        reports(r, courier, tn, t),
        t.len() > 0,
        t[0] != 's',
        forall|k: int| 0 <= k < t.len() ==> t[k] != '%',
    ensures
        has_no_placeholder(r.tracking_url@),
{
    if let Some(url) = tn.tracking_url {
        lemma_fill_leaves_no_placeholder(url@, t);
    }
}

/// Law: the serial number and check digit read from a number hold no
/// whitespace.
pub proof fn lemma_captured_text_has_no_whitespace(tn: TrackingNumber, t: Seq<char>)
    requires
        tn.captured_serial_and_check(t) is Some,
    ensures
        has_no_whitespace(tn.captured_serial_and_check(t).unwrap().0),
        has_no_whitespace(tn.captured_serial_and_check(t).unwrap().1),
{
    let groups = pcre_captures(tn.regex@, t, serial_and_check_names()).unwrap().unwrap();
    lemma_remove_whitespace_clean(decode_utf8(groups[0].unwrap()));
    lemma_remove_whitespace_clean(decode_utf8(groups[1].unwrap()));
}

/// Law: a number that a kind accepts has, for every table that the kind's
/// `exists` list names, a table of that name whose group, captured in the
/// number, holds a text that the table admits. This holds whether or not the
/// kind also has a checksum, and for every listed table, not just one.
pub proof fn lemma_accepted_number_found_in_every_table(
    tn: TrackingNumber,
    t: Seq<char>,
    items: Vec<String>,
    i: int,
)
    requires
        tn.accepts(t),
        tn.validation.additional == (Some(AdditionalValidation { exists: Some(items) })),
        0 <= i < items@.len(),
    ensures
        first_lookup(tn.additional@, items@[i]@) matches Some(k) && {
            &&& tn.additional@[k].name@ == items@[i]@
            &&& tn.group_names(items@)[i] == tn.additional@[k].regex_group_name@
            &&& match pcre_captures(tn.regex@, t, tn.group_names(items@)) {
                Some(Some(groups)) => groups.len() == items@.len() && match group_text(groups[i]) {
                    Some(v) => tn.additional@[k].admits(v),
                    None => false,
                },
                _ => false,
            }
        },
{
    lemma_first_lookup(tn.additional@, items@[i]@);
    assert(first_lookup(tn.additional@, items@[i]@) is Some);
    match pcre_captures(tn.regex@, t, tn.group_names(items@)) {
        Some(Some(groups)) => {
            assert(match group_text(groups[i]) {
                Some(v) => tn.table_for(items@, i).admits(v),
                None => false,
            });
        },
        _ => {},
    }
}

/// Law: a number is refused by a kind as soon as one of the tables that the
/// kind's `exists` list names does not admit the text its group captures in
/// the number, however right the number's check digit is.
pub proof fn lemma_unlisted_value_refused(
    tn: TrackingNumber,
    t: Seq<char>,
    items: Vec<String>,
    i: int,
    k: int,
    groups: Seq<Option<Seq<u8>>>,
    v: Seq<char>,
)
    requires
        tn.validation.additional == (Some(AdditionalValidation { exists: Some(items) })),
        0 <= i < items@.len(),
        first_lookup(tn.additional@, items@[i]@) == Some(k),
        pcre_captures(tn.regex@, t, tn.group_names(items@)) == Some(Some(groups)),
        i < groups.len(),
        group_text(groups[i]) == Some(v),
        !tn.additional@[k].admits(v),
    ensures
        !tn.accepts(t),
{
    if tn.accepts(t) {
        lemma_accepted_number_found_in_every_table(tn, t, items, i);
    }
}

/// Law: a number that a kind accepts matches the kind's pattern, and, if the
/// kind has a checksum, the pattern captures a serial number and check digit
/// in it that the checksum accepts (the serial rewritten by the kind's
/// serial-number format), whether or not the kind also has lookup tables.
pub proof fn lemma_accepted_number_matches_and_checks(tn: TrackingNumber, t: Seq<char>)
    requires
        tn.accepts(t),
    ensures
        pcre_is_match(tn.regex@, t) == Some(true),
        tn.validation.checksum matches Some(c) ==> serial_and_check(
            pcre_captures(tn.regex@, t, serial_and_check_names()),
        ) matches Some((serial, cd)) && c.accepts(tn.formatted_serial(serial), cd),
{
}

} // verus!
