//! Migration identities: the `<timestamp>-<slug>` identifier, its parsing and
//! the names derived from it.

use vstd::prelude::*;
use vstd::string::StringExecFns;
use vstd::string::StrSliceExecFns;
use crate::error::MigrationError;
use crate::text::{alnum, ascii_alnum, ascii_lower, lowercase_of, is_alnum, to_lower, push_char};
use crate::splitter::{split_statements, statements_of, views};

verus! {

/// Width of the timestamp prefix, `%Y%m%d%H%M%S`.
pub const TIMESTAMP_WIDTH: usize = 14;

/// Character that joins timestamp and slug and replaces what is not alphanumeric.
pub const SEPARATOR: char = '-';

/// One schema change: its identity and, once loaded, its script.
#[derive(Debug)]
pub struct Migration {
    pub name: String,
    pub timestamp: String,
    pub cql: Option<String>,
}

/// What a migration holds, as plain sequences of characters.
pub ghost struct MigrationView {
    pub timestamp: Seq<char>,
    pub name: Seq<char>,
    pub cql: Option<Seq<char>>,
}

impl View for Migration {
    type V = MigrationView;

    open spec fn view(&self) -> MigrationView {
        MigrationView {
            timestamp: self.timestamp@,
            name: self.name@,
            cql: match self.cql {
                Some(c) => Some(c@),
                None => None,
            },
        }
    }
}

/// The views of a sequence of migrations.
pub open spec fn views_of(s: Seq<Migration>) -> Seq<MigrationView> {
    s.map_values(|m: Migration| m@)
}

/// The unloaded migration that identifier `id` names.
pub open spec fn parsed(id: Seq<char>) -> MigrationView {
    MigrationView { timestamp: timestamp_part(id), name: name_part(id), cql: None }
}

/// What one character of a title becomes in the slug: its lowercase form if
/// it is alphanumeric, else the separator.
pub open spec fn slug_piece(c: char) -> Seq<char> {
    if (c as u32) < 128 {
        if ascii_alnum(c) {
            seq![ascii_lower(c)]
        } else {
            seq![SEPARATOR]
        }
    } else if alnum(c) {
        lowercase_of(c)
    } else {
        seq![SEPARATOR]
    }
}

/// The slug of a title: each character replaced by its piece, in order.
pub open spec fn slug_of(title: Seq<char>) -> Seq<char>
    decreases title.len(),
{
    if title.len() == 0 {
        Seq::empty()
    } else {
        slug_of(title.drop_last()) + slug_piece(title.last())
    }
}

/// The canonical identifier `timestamp + '-' + slug`.
pub open spec fn canonical_of(timestamp: Seq<char>, name: Seq<char>) -> Seq<char> {
    timestamp + seq![SEPARATOR] + name
}

/// The timestamp part of an identifier of at least the fixed width.
pub open spec fn timestamp_part(id: Seq<char>) -> Seq<char> {
    id.subrange(0, TIMESTAMP_WIDTH as int)
}

/// What follows the separator position; empty when nothing does.
pub open spec fn name_part(id: Seq<char>) -> Seq<char> {
    if id.len() > TIMESTAMP_WIDTH + 1 {
        id.subrange(TIMESTAMP_WIDTH + 1, id.len() as int)
    } else {
        Seq::empty()
    }
}

/// Whether `id` can be split into an identity.
pub open spec fn parses(id: Seq<char>) -> bool {
    id.len() >= TIMESTAMP_WIDTH
}

/// Relies on chrono's `Utc::now` and `DateTime::format` with `%Y%m%d%H%M%S`:
/// the current UTC time as year, month, day, hour, minute and second. The
/// value depends on the clock, so nothing is claimed of it.
#[verifier::external_body]
fn utc_timestamp() -> (r: String) {
    chrono::Utc::now().format("%Y%m%d%H%M%S").to_string()
}

impl Migration {
    /// A migration named from `title`, stamped with the current UTC time, not
    /// yet loaded.
    pub fn new(title: &str) -> (r: Migration)
        ensures
            r.name@ == slug_of(title@),
            r.cql is None,
    {
        Migration::with_timestamp(title, utc_timestamp())
    }

    /// Records the script that was read for this migration.
    pub fn set_content(&mut self, content: String)
        ensures
            final(self)@ == (MigrationView { cql: Some(content@), ..old(self)@ }),
    {
        self.cql = Some(content);
    }

    /// The statements of the loaded script, in order; `None` before loading.
    pub fn statements(&self) -> (r: Option<Vec<String>>)
        ensures
            self.cql is None <==> r is None,
            r matches Some(v) ==> views(v@) == statements_of(self@.cql->0),
    {
        match &self.cql {
            Some(c) => Some(split_statements(c.as_str())),
            None => None,
        }
    }

    /// The canonical identifier of this migration.
    pub open spec fn id_spec(&self) -> Seq<char> {
        canonical_of(self.timestamp@, self.name@)
    }

    /// A migration named from `title` at the given timestamp, not yet loaded.
    pub fn with_timestamp(title: &str, timestamp: String) -> (r: Migration)
        ensures
            r.name@ == slug_of(title@),
            r.timestamp@ == timestamp@,
            r.cql is None,
    {
        let n = title.unicode_len();
        let mut name = String::new();
        let mut i: usize = 0;
        assert(title@.subrange(0, 0) =~= Seq::<char>::empty());
        while i < n
            invariant
                n == title@.len(),
                i <= n,
                name@ == slug_of(title@.subrange(0, i as int)),
            decreases n - i,
        {
            let c = title.get_char(i);
            proof {
                let next = title@.subrange(0, i + 1);
                assert(next.drop_last() =~= title@.subrange(0, i as int));
                assert(next.last() == c);
            }
            if is_alnum(c) {
                let low = to_lower(c);
                name.append(low.as_str());
            } else {
                push_char(&mut name, SEPARATOR);
                assert(seq![SEPARATOR] =~= Seq::<char>::empty().push(SEPARATOR));
                assert(name@ =~= slug_of(title@.subrange(0, i as int)) + seq![SEPARATOR]);
            }
            i = i + 1;
        }
        assert(title@.subrange(0, n as int) =~= title@);
        Migration { name, timestamp, cql: None }
    }

    /// The canonical identifier, `timestamp-name`.
    pub fn canonical(&self) -> (r: String)
        ensures
            r@ == self.id_spec(),
    {
        let mut r = self.timestamp.clone();
        push_char(&mut r, SEPARATOR);
        r.append(self.name.as_str());
        r
    }

    /// Path of the script: `migrations/<identifier>.cql`.
    pub fn filename(&self) -> (r: String)
        ensures
            r@ == "migrations/"@ + self.id_spec() + ".cql"@,
    {
        let mut r = String::from_str("migrations/");
        let id = self.canonical();
        r.append(id.as_str());
        r.append(".cql");
        r
    }

    /// Text of a fresh script: the title as a comment, then a placeholder.
    pub fn template(&self) -> (r: String)
        ensures
            r@ == "-- "@ + self.name@ + "\n\n-- Write your migration here"@,
    {
        let mut r = String::from_str("-- ");
        r.append(self.name.as_str());
        r.append("\n\n-- Write your migration here");
        r
    }

    /// Splits an identifier into timestamp (the first fourteen characters) and
    /// name (what follows the separator), with no script loaded.
    pub fn parse(id: &str) -> (r: Result<Migration, MigrationError>)
        ensures
            parses(id@) <==> r is Ok,
            r matches Ok(m) ==> m@ == parsed(id@),
            r matches Err(e) ==> (e matches MigrationError::InvalidIdentityFormat { identifier }
                && identifier@ == id@),
    {
        let n = id.unicode_len();
        if n < TIMESTAMP_WIDTH {
            return Err(MigrationError::InvalidIdentityFormat { identifier: id.to_owned() });
        }
        let timestamp = id.substring_char(0, TIMESTAMP_WIDTH).to_owned();
        let name = if n > TIMESTAMP_WIDTH + 1 {
            id.substring_char(TIMESTAMP_WIDTH + 1, n).to_owned()
        } else {
            String::new()
        };
        Ok(Migration { name, timestamp, cql: None })
    }
}

/// A slug of an ASCII title has one character per character of the title,
/// each a lowercase ASCII letter, a digit or the separator: no uppercase
/// letter and no punctuation survives.
pub proof fn lemma_slug_ascii(title: Seq<char>)
    requires
        forall|k: int| 0 <= k < title.len() ==> (#[trigger] title[k] as u32) < 128,
    ensures
        slug_of(title).len() == title.len(),
        forall|k: int|
            0 <= k < title.len() ==> {
                let c = #[trigger] slug_of(title)[k];
                ('a' <= c && c <= 'z') || ('0' <= c && c <= '9') || c == SEPARATOR
            },
    decreases title.len(),
{
    if title.len() > 0 {
        let front = title.drop_last();
        assert forall|k: int| 0 <= k < front.len() implies (#[trigger] front[k] as u32) < 128 by {
            assert(front[k] == title[k]);
        }
        lemma_slug_ascii(front);
        let c = title.last();
        assert((c as u32) < 128);
        assert forall|k: int| 0 <= k < title.len() implies {
            let d = #[trigger] slug_of(title)[k];
            ('a' <= d && d <= 'z') || ('0' <= d && d <= '9') || d == SEPARATOR
        } by {
            if k < front.len() {
                assert(slug_of(title)[k] == slug_of(front)[k]);
            } else {
                assert(slug_of(title)[k] == slug_piece(c)[0]);
            }
        }
    }
}

/// Round trip: a migration whose timestamp has the fixed width, and whose
/// script is not loaded, is what parsing its canonical identifier gives.
pub proof fn lemma_parse_canonical(m: MigrationView)
    requires
        m.timestamp.len() == TIMESTAMP_WIDTH,
        m.cql is None,
    ensures
        parses(canonical_of(m.timestamp, m.name)),
        parsed(canonical_of(m.timestamp, m.name)) == m,
{
    let id = canonical_of(m.timestamp, m.name);
    assert(timestamp_part(id) =~= m.timestamp);
    assert(name_part(id) =~= m.name);
}

} // verus!
