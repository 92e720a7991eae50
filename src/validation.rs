//! Syntax rules for DNS names and email addresses.
use crate::error::{EmailFault, NameFault, ZoneError};
use crate::text::{
    alphanumeric, chars_of, ends_dot, is_alphanumeric, is_numeric, lemma_split_nonempty,
    numeric, split, split_chars, views,
};
use vstd::prelude::*;

verus! {

/// Whether `c` occurs in `s`.
pub open spec fn contains_char(s: Seq<char>, c: char) -> bool {
    exists|k: int| 0 <= k < s.len() && s[k] == c
}

/// The characters allowed in a DNS label.
pub open spec fn dns_label_char(c: char) -> bool {
    alphanumeric(c) || c == '-' || c == '_'
}

/// The first rule that a single DNS label breaks; `leftmost` tells whether
/// it is the first label of its name.
pub open spec fn label_fault(l: Seq<char>, leftmost: bool) -> Option<NameFault> {
    if l.len() == 0 {
        Some(NameFault::EmptyLabel)
    } else if l.len() > 63 {
        Some(NameFault::LabelTooLong)
    } else if contains_char(l, '*') {
        if !leftmost {
            Some(NameFault::WildcardNotLeftmost)
        } else if l != seq!['*'] {
            Some(NameFault::WildcardNotWhole)
        } else {
            None
        }
    } else if l[0] == '-' || l.last() == '-' {
        Some(NameFault::HyphenAtEdge)
    } else if !(forall|k: int| 0 <= k < l.len() ==> dns_label_char(#[trigger] l[k])) {
        Some(NameFault::InvalidChar)
    } else {
        None
    }
}

/// The first fault among `labels[i..]`, in order.
pub open spec fn first_label_fault(labels: Seq<Seq<char>>, i: int) -> Option<NameFault>
    decreases labels.len() - i,
{
    if i < 0 || i >= labels.len() {
        None
    } else {
        match label_fault(labels[i], i == 0) {
            Some(f) => Some(f),
            None => first_label_fault(labels, i + 1),
        }
    }
}

/// The first rule that the DNS name `s` breaks, if any: at most 253
/// characters, a trailing dot, then each label before that dot in turn.
pub open spec fn dns_name_fault(s: Seq<char>) -> Option<NameFault> {
    if s.len() > 253 {
        Some(NameFault::TooLong)
    } else if !ends_dot(s) {
        Some(NameFault::NotQualified)
    } else {
        first_label_fault(split(s.drop_last(), '.'), 0)
    }
}

/// A syntactically valid, fully qualified DNS name.
pub open spec fn valid_dns_name(s: Seq<char>) -> bool {
    dns_name_fault(s) is None
}

/// Whether `c` occurs in `s`.
pub fn has_char(s: &Vec<char>, c: char) -> (r: bool)
    ensures
        r == contains_char(s@, c),
{
    let mut i: usize = 0;
    while i < s.len()
        invariant
            i <= s.len(),
            forall|k: int| 0 <= k < i ==> s@[k] != c,
        decreases s.len() - i,
    {
        if s[i] == c {
            return true;
        }
        i = i + 1;
    }
    false
}

/// The first rule that the single label `l` breaks.
pub fn check_label(l: &Vec<char>, leftmost: bool) -> (r: Option<NameFault>)
    ensures
        r == label_fault(l@, leftmost),
{
    if l.len() == 0 {
        return Some(NameFault::EmptyLabel);
    }
    if l.len() > 63 {
        return Some(NameFault::LabelTooLong);
    }
    if has_char(l, '*') {
        if !leftmost {
            return Some(NameFault::WildcardNotLeftmost);
        }
        if l.len() != 1 || l[0] != '*' {
            assert(l@ != seq!['*']) by {
                if l@ == seq!['*'] {
                    assert(l@[0] == '*');
                }
            }
            return Some(NameFault::WildcardNotWhole);
        }
        assert(l@ =~= seq!['*']);
        return None;
    }
    if l[0] == '-' || l[l.len() - 1] == '-' {
        return Some(NameFault::HyphenAtEdge);
    }
    let mut i: usize = 0;
    while i < l.len()
        invariant
            i <= l.len(),
            0 < l@.len() <= 63,
            !contains_char(l@, '*'),
            l@[0] != '-' && l@.last() != '-',
            forall|k: int| 0 <= k < i ==> dns_label_char(#[trigger] l@[k]),
        decreases l.len() - i,
    {
        let c = l[i];
        if !(is_alphanumeric(c) || c == '-' || c == '_') {
            assert(!dns_label_char(l@[i as int]));
            return Some(NameFault::InvalidChar);
        }
        i = i + 1;
    }
    None
}

/// The first rule that the DNS name `s` breaks, if any.
pub fn dns_name_check(s: &Vec<char>) -> (r: Option<NameFault>)
    ensures
        r == dns_name_fault(s@),
{
    if s.len() > 253 {
        return Some(NameFault::TooLong);
    }
    if s.len() == 0 || s[s.len() - 1] != '.' {
        return Some(NameFault::NotQualified);
    }
    let end: usize = s.len() - 1;
    let mut body: Vec<char> = Vec::new();
    let mut k: usize = 0;
    while k < end
        invariant
            k <= end <= s.len(),
            body@ == s@.subrange(0, k as int),
        decreases end - k,
    {
        body.push(s[k]);
        k = k + 1;
        assert(body@ =~= s@.subrange(0, k as int));
    }
    assert(s@.drop_last() =~= body@);
    let labels = split_chars(&body, '.');
    let ghost lv = views(labels@);
    assert(first_label_fault(lv, 0) == dns_name_fault(s@));
    let mut i: usize = 0;
    while i < labels.len()
        invariant
            i <= labels.len(),
            lv == views(labels@),
            lv.len() == labels.len(),
            first_label_fault(lv, 0) == first_label_fault(lv, i as int),
            first_label_fault(lv, 0) == dns_name_fault(s@),
        decreases labels.len() - i,
    {
        assert(lv[i as int] == labels[i as int]@);
        let f = check_label(&labels[i], i == 0);
        if f.is_some() {
            assert(first_label_fault(lv, i as int) == f);
            return f;
        }
        i = i + 1;
    }
    None
}

/// Checks that `name` is a fully qualified DNS name: at most 253
/// characters, a trailing dot, labels of 1 to 63 characters made of
/// alphanumerics, `-` and `_` with no hyphen at either end, and `*` only as
/// the whole leftmost label.
pub fn validate_dns_name(name: &str) -> (r: Result<(), ZoneError>)
    ensures
        r is Ok <==> valid_dns_name(name@),
        r matches Err(ZoneError::InvalidName { name: n, fault }) ==> n@ == name@ && dns_name_fault(
            name@,
        ) == Some(fault),
        r is Err ==> r matches Err(ZoneError::InvalidName { .. }),
{
    let s = chars_of(name);
    match dns_name_check(&s) {
        None => Ok(()),
        Some(fault) => Err(ZoneError::InvalidName { name: name.to_owned(), fault }),
    }
}

/// The index of the first `c` in `s` at or after `i`, or -1.
pub open spec fn index_from(s: Seq<char>, c: char, i: int) -> int
    decreases s.len() - i,
{
    if i < 0 || i >= s.len() {
        -1
    } else if s[i] == c {
        i
    } else {
        index_from(s, c, i + 1)
    }
}

/// The characters allowed in the local part of an email address.
pub open spec fn email_local_char(c: char) -> bool {
    alphanumeric(c) || c == '.' || c == '+' || c == '-' || c == '_'
}

/// The characters allowed in a label of an email domain.
pub open spec fn email_domain_char(c: char) -> bool {
    alphanumeric(c) || c == '-'
}

/// Whether two dots follow each other somewhere in `s`.
pub open spec fn has_double_dot(s: Seq<char>) -> bool {
    exists|k: int| 0 <= k < s.len() - 1 && s[k] == '.' && #[trigger] s[k + 1] == '.'
}

/// The first rule that the local part of an email address breaks.
pub open spec fn local_fault(l: Seq<char>) -> Option<EmailFault> {
    if l.len() == 0 {
        Some(EmailFault::LocalEmpty)
    } else if l.len() > 64 {
        Some(EmailFault::LocalTooLong)
    } else if l[0] == '.' || l.last() == '.' {
        Some(EmailFault::LocalDotAtEdge)
    } else if has_double_dot(l) {
        Some(EmailFault::LocalConsecutiveDots)
    } else if !(forall|k: int| 0 <= k < l.len() ==> email_local_char(#[trigger] l[k])) {
        Some(EmailFault::LocalInvalidChar)
    } else {
        None
    }
}

/// The first rule that a label of an email domain breaks.
pub open spec fn domain_label_fault(l: Seq<char>) -> Option<EmailFault> {
    if l.len() == 0 {
        Some(EmailFault::DomainEmptyLabel)
    } else if l.len() > 63 {
        Some(EmailFault::DomainLabelTooLong)
    } else if l[0] == '-' || l.last() == '-' {
        Some(EmailFault::DomainHyphenAtEdge)
    } else if !(forall|k: int| 0 <= k < l.len() ==> email_domain_char(#[trigger] l[k])) {
        Some(EmailFault::DomainInvalidChar)
    } else {
        None
    }
}

/// The first fault among the domain labels `labels[i..]`.
pub open spec fn first_domain_label_fault(labels: Seq<Seq<char>>, i: int) -> Option<EmailFault>
    decreases labels.len() - i,
{
    if i < 0 || i >= labels.len() {
        None
    } else {
        match domain_label_fault(labels[i]) {
            Some(f) => Some(f),
            None => first_domain_label_fault(labels, i + 1),
        }
    }
}

/// Whether every character of `s` is numeric.
pub open spec fn all_numeric(s: Seq<char>) -> bool {
    forall|k: int| 0 <= k < s.len() ==> numeric(#[trigger] s[k])
}

/// The first rule that the domain of an email address breaks.
pub open spec fn domain_fault(d: Seq<char>) -> Option<EmailFault> {
    if d.len() == 0 {
        Some(EmailFault::DomainEmpty)
    } else if !contains_char(d, '.') {
        Some(EmailFault::DomainWithoutDot)
    } else {
        match first_domain_label_fault(split(d, '.'), 0) {
            Some(f) => Some(f),
            None => if all_numeric(split(d, '.').last()) {
                Some(EmailFault::NumericTld)
            } else {
                None
            },
        }
    }
}

/// The first rule that the email address `s` breaks, if any: at most 254
/// characters, an `@`, then the local part before the first `@` and the
/// domain after it.
pub open spec fn email_fault(s: Seq<char>) -> Option<EmailFault> {
    if s.len() > 254 {
        Some(EmailFault::TooLong)
    } else if index_from(s, '@', 0) < 0 {
        Some(EmailFault::MissingAt)
    } else {
        let at = index_from(s, '@', 0);
        match local_fault(s.take(at)) {
            Some(f) => Some(f),
            None => domain_fault(s.skip(at + 1)),
        }
    }
}

/// A syntactically valid email address.
pub open spec fn valid_email(s: Seq<char>) -> bool {
    email_fault(s) is None
}

pub proof fn lemma_index_from_bounds(s: Seq<char>, c: char, i: int)
    requires
        0 <= i,
    ensures
        index_from(s, c, i) == -1 || (i <= index_from(s, c, i) < s.len() && s[index_from(s, c, i)]
            == c),
        index_from(s, c, i) == -1 ==> forall|k: int| i <= k < s.len() ==> s[k] != c,
        index_from(s, c, i) >= 0 ==> forall|k: int| i <= k < index_from(s, c, i) ==> s[k] != c,
    decreases s.len() - i,
{
    if i < s.len() && s[i] != c {
        lemma_index_from_bounds(s, c, i + 1);
    }
}

/// The index of the first `c` in `s`, if any.
pub fn find_char(s: &Vec<char>, c: char) -> (r: Option<usize>)
    ensures
        match r {
            Some(i) => index_from(s@, c, 0) == i as int,
            None => index_from(s@, c, 0) == -1,
        },
{
    let mut i: usize = 0;
    while i < s.len()
        invariant
            i <= s.len(),
            index_from(s@, c, 0) == index_from(s@, c, i as int),
        decreases s.len() - i,
    {
        if s[i] == c {
            return Some(i);
        }
        i = i + 1;
    }
    None
}

/// The characters `s[from..to]`.
pub fn slice_chars(s: &Vec<char>, from: usize, to: usize) -> (r: Vec<char>)
    requires
        from <= to <= s.len(),
    ensures
        r@ == s@.subrange(from as int, to as int),
{
    let mut r: Vec<char> = Vec::new();
    let mut k: usize = from;
    while k < to
        invariant
            from <= k <= to <= s.len(),
            r@ == s@.subrange(from as int, k as int),
        decreases to - k,
    {
        r.push(s[k]);
        k = k + 1;
        assert(r@ =~= s@.subrange(from as int, k as int));
    }
    r
}

fn check_local(l: &Vec<char>) -> (r: Option<EmailFault>)
    ensures
        r == local_fault(l@),
{
    if l.len() == 0 {
        return Some(EmailFault::LocalEmpty);
    }
    if l.len() > 64 {
        return Some(EmailFault::LocalTooLong);
    }
    if l[0] == '.' || l[l.len() - 1] == '.' {
        return Some(EmailFault::LocalDotAtEdge);
    }
    let mut i: usize = 0;
    while i + 1 < l.len()
        invariant
            0 < l@.len() <= 64,
            l@[0] != '.' && l@.last() != '.',
            i < l.len(),
            forall|k: int| 0 <= k < i ==> !(l@[k] == '.' && #[trigger] l@[k + 1] == '.'),
        decreases l.len() - i,
    {
        if l[i] == '.' && l[i + 1] == '.' {
            assert(has_double_dot(l@)) by {
                assert(l@[i as int + 1] == '.');
            }
            return Some(EmailFault::LocalConsecutiveDots);
        }
        i = i + 1;
    }
    assert(!has_double_dot(l@));
    let mut j: usize = 0;
    while j < l.len()
        invariant
            j <= l.len(),
            0 < l@.len() <= 64,
            l@[0] != '.' && l@.last() != '.',
            !has_double_dot(l@),
            forall|k: int| 0 <= k < j ==> email_local_char(#[trigger] l@[k]),
        decreases l.len() - j,
    {
        let c = l[j];
        if !(is_alphanumeric(c) || c == '.' || c == '+' || c == '-' || c == '_') {
            assert(!email_local_char(l@[j as int]));
            return Some(EmailFault::LocalInvalidChar);
        }
        j = j + 1;
    }
    None
}

fn check_domain_label(l: &Vec<char>) -> (r: Option<EmailFault>)
    ensures
        r == domain_label_fault(l@),
{
    if l.len() == 0 {
        return Some(EmailFault::DomainEmptyLabel);
    }
    if l.len() > 63 {
        return Some(EmailFault::DomainLabelTooLong);
    }
    if l[0] == '-' || l[l.len() - 1] == '-' {
        return Some(EmailFault::DomainHyphenAtEdge);
    }
    let mut j: usize = 0;
    while j < l.len()
        invariant
            j <= l.len(),
            0 < l@.len() <= 63,
            l@[0] != '-' && l@.last() != '-',
            forall|k: int| 0 <= k < j ==> email_domain_char(#[trigger] l@[k]),
        decreases l.len() - j,
    {
        let c = l[j];
        if !(is_alphanumeric(c) || c == '-') {
            assert(!email_domain_char(l@[j as int]));
            return Some(EmailFault::DomainInvalidChar);
        }
        j = j + 1;
    }
    None
}

fn check_domain(d: &Vec<char>) -> (r: Option<EmailFault>)
    ensures
        r == domain_fault(d@),
{
    if d.len() == 0 {
        return Some(EmailFault::DomainEmpty);
    }
    if !has_char(d, '.') {
        return Some(EmailFault::DomainWithoutDot);
    }
    let labels = split_chars(d, '.');
    let ghost lv = views(labels@);
    proof {
        lemma_split_nonempty(d@, '.');
    }
    let mut i: usize = 0;
    while i < labels.len()
        invariant
            i <= labels.len(),
            lv == views(labels@),
            lv.len() == labels.len(),
            lv == split(d@, '.'),
            d@.len() > 0,
            contains_char(d@, '.'),
            first_domain_label_fault(lv, 0) == first_domain_label_fault(lv, i as int),
        decreases labels.len() - i,
    {
        assert(lv[i as int] == labels[i as int]@);
        let f = check_domain_label(&labels[i]);
        if f.is_some() {
            assert(first_domain_label_fault(lv, i as int) == f);
            return f;
        }
        i = i + 1;
    }
    let last = &labels[labels.len() - 1];
    assert(lv.last() == last@);
    let mut j: usize = 0;
    while j < last.len()
        invariant
            j <= last.len(),
            lv == split(d@, '.'),
            lv.last() == last@,
            d@.len() > 0,
            contains_char(d@, '.'),
            first_domain_label_fault(lv, 0) is None,
            forall|k: int| 0 <= k < j ==> numeric(#[trigger] last@[k]),
        decreases last.len() - j,
    {
        if !is_numeric(last[j]) {
            assert(!numeric(last@[j as int]));
            return None;
        }
        j = j + 1;
    }
    Some(EmailFault::NumericTld)
}

/// The first rule that the email address `s` breaks, if any.
pub fn email_check(s: &Vec<char>) -> (r: Option<EmailFault>)
    ensures
        r == email_fault(s@),
{
    if s.len() > 254 {
        return Some(EmailFault::TooLong);
    }
    match find_char(s, '@') {
        None => Some(EmailFault::MissingAt),
        Some(at) => {
            proof {
                lemma_index_from_bounds(s@, '@', 0);
            }
            let local = slice_chars(s, 0, at);
            assert(local@ =~= s@.take(at as int));
            match check_local(&local) {
                Some(f) => Some(f),
                None => {
                    let domain = slice_chars(s, at + 1, s.len());
                    assert(domain@ =~= s@.skip(at + 1));
                    check_domain(&domain)
                },
            }
        },
    }
}

/// Checks an email address: at most 254 characters; a local part before
/// the first `@` of 1 to 64 characters made of alphanumerics and `.+-_`,
/// with no dot at either end and no two dots in a row; a domain after it
/// that holds a dot, whose labels follow the host name rules, and whose last
/// label is not all numeric.
pub fn validate_email(email: &str) -> (r: Result<(), ZoneError>)
    ensures
        r is Ok <==> valid_email(email@),
        r matches Err(ZoneError::InvalidEmail { email: e, fault }) ==> e@ == email@ && email_fault(
            email@,
        ) == Some(fault),
        r is Err ==> r matches Err(ZoneError::InvalidEmail { .. }),
{
    let s = chars_of(email);
    match email_check(&s) {
        None => Ok(()),
        Some(fault) => Err(ZoneError::InvalidEmail { email: email.to_owned(), fault }),
    }
}

} // verus!
