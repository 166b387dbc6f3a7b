//! The `daku` custom section: runtime capability requirements and the
//! optional Nucleide desktop-integration extension.
//!
//! The body is a count-prefixed list of portal identifiers in strictly
//! increasing numeric order, optionally followed by an ordered-subsection
//! stream over seven discriminants carrying desktop metadata.

use vstd::prelude::*;

use crate::error::Error;
use crate::fields::{
    add_off, dec_frame, dec_name, dec_name_map, dec_name_vec, enc_name, enc_name_map, enc_name_vec,
    fits_u32, lemma_dec_name_enc, lemma_dec_name_map_enc, lemma_dec_name_vec_enc, name_fits,
    name_map_fits, name_vec_fits, NameMapV,
};
use crate::maps::{sorted_insert, strictly_sorted, NameMap};
use crate::reader::Reader;
use crate::stream::{dec_stream, enc_stream, stream_ordered};
use crate::varint::{uleb32_dec, uleb_bytes};
use crate::writer::Writer;

verus! {

/// A requested capability.
#[derive(Debug, Copy, Clone, PartialEq, Eq, Structural)]
pub enum Portal {
    /// Logging API (stdout/printf).
    Log,
    /// Developer command API (stdin/scanf).
    Prompt,
    /// Network fetch API.
    Fetch,
    /// Network serve API.
    Serve,
    /// Audio output API.
    Speakers,
    /// Audio input API.
    Microphone,
    /// Screen capture API.
    Screen,
    /// Camera API.
    Camera,
    /// Windowing API.
    Window,
    /// Process spawn API.
    Spawn,
    /// Set user information API (username, display name, localization).
    User,
    /// Get user information API (username, display name, localization).
    Preferences,
    /// Create new users, settings for all users.
    System,
    /// Get system information and settings.
    About,
    /// Filesystem API.
    File,
    /// Human interface device API.
    Hid,
    /// Timer API.
    Timer,
    /// Clock API.
    Clock,
    /// GPU API.
    Gpu,
    /// Location API.
    Location,
}

/// The numeric identifier of a portal.
pub open spec fn portal_val(p: Portal) -> u32 {
    match p {
        Portal::Log => 0x00,
        Portal::Prompt => 0x01,
        Portal::Fetch => 0x02,
        Portal::Serve => 0x03,
        Portal::Speakers => 0x04,
        Portal::Microphone => 0x05,
        Portal::Screen => 0x06,
        Portal::Camera => 0x07,
        Portal::Window => 0x08,
        Portal::Spawn => 0x09,
        Portal::User => 0x0a,
        Portal::Preferences => 0x0b,
        Portal::System => 0x0c,
        Portal::About => 0x0d,
        Portal::File => 0x0e,
        Portal::Hid => 0x0f,
        Portal::Timer => 0x10,
        Portal::Clock => 0x11,
        Portal::Gpu => 0x12,
        Portal::Location => 0x13,
    }
}

/// The portal with the given numeric identifier, if it is a known one.
pub open spec fn portal_of(v: u32) -> Option<Portal> {
    if v == 0x00 {
        Some(Portal::Log)
    } else if v == 0x01 {
        Some(Portal::Prompt)
    } else if v == 0x02 {
        Some(Portal::Fetch)
    } else if v == 0x03 {
        Some(Portal::Serve)
    } else if v == 0x04 {
        Some(Portal::Speakers)
    } else if v == 0x05 {
        Some(Portal::Microphone)
    } else if v == 0x06 {
        Some(Portal::Screen)
    } else if v == 0x07 {
        Some(Portal::Camera)
    } else if v == 0x08 {
        Some(Portal::Window)
    } else if v == 0x09 {
        Some(Portal::Spawn)
    } else if v == 0x0a {
        Some(Portal::User)
    } else if v == 0x0b {
        Some(Portal::Preferences)
    } else if v == 0x0c {
        Some(Portal::System)
    } else if v == 0x0d {
        Some(Portal::About)
    } else if v == 0x0e {
        Some(Portal::File)
    } else if v == 0x0f {
        Some(Portal::Hid)
    } else if v == 0x10 {
        Some(Portal::Timer)
    } else if v == 0x11 {
        Some(Portal::Clock)
    } else if v == 0x12 {
        Some(Portal::Gpu)
    } else if v == 0x13 {
        Some(Portal::Location)
    } else {
        None
    }
}

impl Portal {
    /// The numeric identifier of this portal.
    pub fn value(&self) -> (r: u32)
        ensures
            r == portal_val(*self),
    {
        match self {
            Portal::Log => 0x00,
            Portal::Prompt => 0x01,
            Portal::Fetch => 0x02,
            Portal::Serve => 0x03,
            Portal::Speakers => 0x04,
            Portal::Microphone => 0x05,
            Portal::Screen => 0x06,
            Portal::Camera => 0x07,
            Portal::Window => 0x08,
            Portal::Spawn => 0x09,
            Portal::User => 0x0a,
            Portal::Preferences => 0x0b,
            Portal::System => 0x0c,
            Portal::About => 0x0d,
            Portal::File => 0x0e,
            Portal::Hid => 0x0f,
            Portal::Timer => 0x10,
            Portal::Clock => 0x11,
            Portal::Gpu => 0x12,
            Portal::Location => 0x13,
        }
    }

    /// The portal with the given numeric identifier, if known.
    pub fn from_u32(v: u32) -> (r: Option<Portal>)
        ensures
            r == portal_of(v),
    {
        if v == 0x00 {
            Some(Portal::Log)
        } else if v == 0x01 {
            Some(Portal::Prompt)
        } else if v == 0x02 {
            Some(Portal::Fetch)
        } else if v == 0x03 {
            Some(Portal::Serve)
        } else if v == 0x04 {
            Some(Portal::Speakers)
        } else if v == 0x05 {
            Some(Portal::Microphone)
        } else if v == 0x06 {
            Some(Portal::Screen)
        } else if v == 0x07 {
            Some(Portal::Camera)
        } else if v == 0x08 {
            Some(Portal::Window)
        } else if v == 0x09 {
            Some(Portal::Spawn)
        } else if v == 0x0a {
            Some(Portal::User)
        } else if v == 0x0b {
            Some(Portal::Preferences)
        } else if v == 0x0c {
            Some(Portal::System)
        } else if v == 0x0d {
            Some(Portal::About)
        } else if v == 0x0e {
            Some(Portal::File)
        } else if v == 0x0f {
            Some(Portal::Hid)
        } else if v == 0x10 {
            Some(Portal::Timer)
        } else if v == 0x11 {
            Some(Portal::Clock)
        } else if v == 0x12 {
            Some(Portal::Gpu)
        } else if v == 0x13 {
            Some(Portal::Location)
        } else {
            None
        }
    }
}

/// Round trip between a portal and its numeric identifier.
pub proof fn lemma_portal_val_of(p: Portal)
    ensures
        portal_of(portal_val(p)) == Some(p),
        portal_val(p) <= 0x13,
{
}

/// App category (Nucleide extension).
#[derive(Debug, Copy, Clone, PartialEq, Eq, Structural)]
pub enum Category {
    /// Applications for playing / recording / editing audio, video,
    /// drawing, photos, fonts, 3D-modeling.
    Media,
    /// Applications for viewing / editing / translating documents and
    /// spreadsheets.
    Office,
    /// Applications for inspecting the operating system, tweaking,
    /// installing, and virtualization.
    System,
    /// Applications for software development, math, related tools.
    Coding,
    /// Applications for browsing the web, peer-to-peer file sharing, email,
    /// social media, etc.
    Internet,
    /// Applications for playing video games.
    Gaming,
    /// Applications for simulations, engineering, and data inspection.
    Science,
    /// Applications for education, learning.
    Education,
    /// Applications for to-do lists, calendar, wellbeing, fitness,
    /// directions, mapping, weather, smart home, etc.
    Life,
    /// Applications for coupons, buying/selling, trading, currency.
    Finance,
}

/// The numeric identifier of a category.
pub open spec fn category_val(c: Category) -> u32 {
    match c {
        Category::Media => 0x00,
        Category::Office => 0x01,
        Category::System => 0x02,
        Category::Coding => 0x03,
        Category::Internet => 0x04,
        Category::Gaming => 0x05,
        Category::Science => 0x06,
        Category::Education => 0x07,
        Category::Life => 0x08,
        Category::Finance => 0x09,
    }
}

/// The category with the given numeric identifier, if it is a known one.
pub open spec fn category_of(v: u32) -> Option<Category> {
    if v == 0x00 {
        Some(Category::Media)
    } else if v == 0x01 {
        Some(Category::Office)
    } else if v == 0x02 {
        Some(Category::System)
    } else if v == 0x03 {
        Some(Category::Coding)
    } else if v == 0x04 {
        Some(Category::Internet)
    } else if v == 0x05 {
        Some(Category::Gaming)
    } else if v == 0x06 {
        Some(Category::Science)
    } else if v == 0x07 {
        Some(Category::Education)
    } else if v == 0x08 {
        Some(Category::Life)
    } else if v == 0x09 {
        Some(Category::Finance)
    } else {
        None
    }
}

impl Category {
    /// The numeric identifier of this category.
    pub fn value(&self) -> (r: u32)
        ensures
            r == category_val(*self),
    {
        match self {
            Category::Media => 0x00,
            Category::Office => 0x01,
            Category::System => 0x02,
            Category::Coding => 0x03,
            Category::Internet => 0x04,
            Category::Gaming => 0x05,
            Category::Science => 0x06,
            Category::Education => 0x07,
            Category::Life => 0x08,
            Category::Finance => 0x09,
        }
    }

    /// The category with the given numeric identifier, if known.
    pub fn from_u32(v: u32) -> (r: Option<Category>)
        ensures
            r == category_of(v),
    {
        if v == 0x00 {
            Some(Category::Media)
        } else if v == 0x01 {
            Some(Category::Office)
        } else if v == 0x02 {
            Some(Category::System)
        } else if v == 0x03 {
            Some(Category::Coding)
        } else if v == 0x04 {
            Some(Category::Internet)
        } else if v == 0x05 {
            Some(Category::Gaming)
        } else if v == 0x06 {
            Some(Category::Science)
        } else if v == 0x07 {
            Some(Category::Education)
        } else if v == 0x08 {
            Some(Category::Life)
        } else if v == 0x09 {
            Some(Category::Finance)
        } else {
            None
        }
    }
}

/// Round trip between a category and its numeric identifier.
pub proof fn lemma_category_val_of(c: Category)
    ensures
        category_of(category_val(c)) == Some(c),
        category_val(c) <= 0x09,
{
}

/// A metadata file (Nucleide extension): a path and its raw contents.
#[derive(Clone, PartialEq, Eq, Debug)]
pub struct File {
    /// The path of the file.
    pub path: String,
    /// Data in the file.
    pub data: Vec<u8>,
}

/// The mathematical value of a file: its path and its bytes.
pub type FileV = (Seq<char>, Seq<u8>);

/// View of a file map: key-sorted `(index, file)` pairs.
pub type FileMapV = Seq<(u32, FileV)>;

impl View for File {
    type V = FileV;

    open spec fn view(&self) -> FileV {
        (self.path@, self.data@)
    }
}

/// The views of a sequence of files.
pub open spec fn files_view(s: Seq<File>) -> Seq<FileV> {
    Seq::new(s.len(), |i: int| s[i]@)
}

/// A file's path and length fit behind 32-bit prefixes.
pub open spec fn file_fits(f: FileV) -> bool {
    name_fits(f.0) && fits_u32(f.1.len() as nat)
}

/// An ordered mapping from 32-bit indices to files.
#[derive(Clone, PartialEq, Eq, Debug)]
pub struct FileMap {
    entries: Vec<(u32, File)>,
}

impl View for FileMap {
    type V = FileMapV;

    closed spec fn view(&self) -> FileMapV {
        Seq::new(self.entries@.len(), |i: int| (self.entries@[i].0, self.entries@[i].1@))
    }
}

impl FileMap {
    /// The keys are strictly increasing.
    pub open spec fn wf(&self) -> bool {
        strictly_sorted(self@)
    }

    /// Create an empty mapping.
    pub fn new() -> (r: FileMap)
        ensures
            r.wf(),
            r@ == Seq::<(u32, FileV)>::empty(),
    {
        let r = FileMap { entries: Vec::new() };
        proof {
            assert(r@ =~= Seq::<(u32, FileV)>::empty());
        }
        r
    }

    /// Number of entries.
    pub fn len(&self) -> (r: usize)
        ensures
            r == self@.len(),
    {
        self.entries.len()
    }

    /// The entry at position `i` in key order.
    pub fn get(&self, i: usize) -> (r: &(u32, File))
        requires
            i < self@.len(),
        ensures
            r.0 == self@[i as int].0,
            r.1@ == self@[i as int].1,
    {
        &self.entries[i]
    }

    /// Insert `(key, value)`, overwriting any entry with an equal key.
    pub fn insert(&mut self, key: u32, value: File)
        requires
            old(self).wf(),
        ensures
            final(self).wf(),
            final(self)@ == sorted_insert(old(self)@, key, value@),
    {
        let mut j: usize = 0;
        while j < self.entries.len() && self.entries[j].0 < key
            invariant
                j <= self.entries@.len(),
                forall|i: int| 0 <= i < j ==> self@[i].0 < key,
                *self == *old(self),
            decreases self.entries@.len() - j,
        {
            j = j + 1;
        }
        proof {
            crate::maps::lemma_idx_ge(self@, key);
            let g = crate::maps::idx_ge(self@, key);
            if j < g {
                assert(self@[j as int].0 < key);
                assert(false);
            }
            if g < j {
                assert(self@[g].0 < key);
                assert(false);
            }
            crate::maps::lemma_sorted_insert_sorted(self@, key, value@);
        }
        if j < self.entries.len() && self.entries[j].0 == key {
            self.entries.remove(j);
            self.entries.insert(j, (key, value));
            proof {
                assert(self@ =~= sorted_insert(old(self)@, key, value@));
            }
        } else {
            self.entries.insert(j, (key, value));
            proof {
                assert(self@ =~= sorted_insert(old(self)@, key, value@));
            }
        }
    }
}

/// Nucleide subsection extension for Daku.
#[derive(Clone, PartialEq, Eq, Debug)]
pub enum Nucleide {
    /// Localized names for the desktop application.
    LocalizedNames(NameMap),
    /// Localized descriptions of the application.
    LocalizedDescriptions(NameMap),
    /// Icons for each theme.
    ThemedIcons(Vec<File>),
    /// Localized assets of the application: one file per locale index.
    /// (Observed wire shapes vary between one file and a list of files per
    /// locale; this crate reads and writes the single-file shape.)
    LocalizedAssets(FileMap),
    /// Lowercase words separated by spaces.
    Tags(Vec<String>),
    /// App categories (limit two by convention).
    Categories(Vec<Category>),
    /// Name of the organization/company/developer of the application.
    Developer(String),
}

/// The mathematical value of one Nucleide subsection.
pub enum NucleideV {
    /// Localized names for the desktop application.
    LocalizedNames(NameMapV),
    /// Localized descriptions of the application.
    LocalizedDescriptions(NameMapV),
    /// Icons for each theme.
    ThemedIcons(Seq<FileV>),
    /// Localized assets of the application.
    LocalizedAssets(FileMapV),
    /// Lowercase words separated by spaces.
    Tags(Seq<Seq<char>>),
    /// App categories.
    Categories(Seq<Category>),
    /// Name of the organization/company/developer of the application.
    Developer(Seq<char>),
}

impl View for Nucleide {
    type V = NucleideV;

    open spec fn view(&self) -> NucleideV {
        match self {
            Nucleide::LocalizedNames(m) => NucleideV::LocalizedNames(m@),
            Nucleide::LocalizedDescriptions(m) => NucleideV::LocalizedDescriptions(m@),
            Nucleide::ThemedIcons(v) => NucleideV::ThemedIcons(files_view(v@)),
            Nucleide::LocalizedAssets(m) => NucleideV::LocalizedAssets(m@),
            Nucleide::Tags(v) => NucleideV::Tags(Seq::new(v@.len(), |i: int| v@[i]@)),
            Nucleide::Categories(v) => NucleideV::Categories(v@),
            Nucleide::Developer(s) => NucleideV::Developer(s@),
        }
    }
}

/// The views of a sequence of Nucleide subsections.
pub open spec fn nucleide_view(s: Seq<Nucleide>) -> Seq<NucleideV> {
    Seq::new(s.len(), |i: int| s[i]@)
}

/// The wire discriminant of a Nucleide subsection.
pub open spec fn nucleide_disc(n: NucleideV) -> u8 {
    match n {
        NucleideV::LocalizedNames(_) => 0,
        NucleideV::LocalizedDescriptions(_) => 1,
        NucleideV::ThemedIcons(_) => 2,
        NucleideV::LocalizedAssets(_) => 3,
        NucleideV::Tags(_) => 4,
        NucleideV::Categories(_) => 5,
        NucleideV::Developer(_) => 6,
    }
}

// ---------------------------------------------------------------------------
// Canonical encodings
// ---------------------------------------------------------------------------
/// Canonical encoding of one file: path, then length-prefixed data.
pub open spec fn enc_file(f: FileV) -> Seq<u8> {
    enc_name(f.0) + uleb_bytes(f.1.len() as nat) + f.1
}

/// Encoding of a vector's files, in order.
pub open spec fn enc_file_entries(v: Seq<FileV>) -> Seq<u8>
    decreases v.len(),
{
    if v.len() == 0 {
        Seq::empty()
    } else {
        enc_file(v[0]) + enc_file_entries(v.skip(1))
    }
}

/// Canonical encoding of a file vector: count, then files.
pub open spec fn enc_file_vec(v: Seq<FileV>) -> Seq<u8> {
    uleb_bytes(v.len() as nat) + enc_file_entries(v)
}

/// Encoding of a file map's entries, in key order.
pub open spec fn enc_file_map_entries(m: FileMapV) -> Seq<u8>
    decreases m.len(),
{
    if m.len() == 0 {
        Seq::empty()
    } else {
        uleb_bytes(m[0].0 as nat) + enc_file(m[0].1) + enc_file_map_entries(m.skip(1))
    }
}

/// Canonical encoding of a file map: entry count, then entries.
pub open spec fn enc_file_map(m: FileMapV) -> Seq<u8> {
    uleb_bytes(m.len() as nat) + enc_file_map_entries(m)
}

/// Encoding of a category list, in order.
pub open spec fn enc_cat_entries(v: Seq<Category>) -> Seq<u8>
    decreases v.len(),
{
    if v.len() == 0 {
        Seq::empty()
    } else {
        uleb_bytes(category_val(v[0]) as nat) + enc_cat_entries(v.skip(1))
    }
}

/// Canonical encoding of a category vector: count, then categories.
pub open spec fn enc_cat_vec(v: Seq<Category>) -> Seq<u8> {
    uleb_bytes(v.len() as nat) + enc_cat_entries(v)
}

/// Encoding of a portal list, in order.
pub open spec fn enc_portal_entries(v: Seq<Portal>) -> Seq<u8>
    decreases v.len(),
{
    if v.len() == 0 {
        Seq::empty()
    } else {
        uleb_bytes(portal_val(v[0]) as nat) + enc_portal_entries(v.skip(1))
    }
}

/// Canonical encoding of one Nucleide subsection's payload.
pub open spec fn enc_nucleide_payload(n: NucleideV) -> Seq<u8> {
    match n {
        NucleideV::LocalizedNames(m) => enc_name_map(m),
        NucleideV::LocalizedDescriptions(m) => enc_name_map(m),
        NucleideV::ThemedIcons(v) => enc_file_vec(v),
        NucleideV::LocalizedAssets(m) => enc_file_map(m),
        NucleideV::Tags(v) => enc_name_vec(v),
        NucleideV::Categories(v) => enc_cat_vec(v),
        NucleideV::Developer(s) => enc_name(s),
    }
}

/// A Nucleide subsection value is well formed: its maps are key-sorted and
/// every name, count and data length fits behind a 32-bit prefix.
pub open spec fn nucleide_v_wf(n: NucleideV) -> bool {
    match n {
        NucleideV::LocalizedNames(m) => strictly_sorted(m) && name_map_fits(m),
        NucleideV::LocalizedDescriptions(m) => strictly_sorted(m) && name_map_fits(m),
        NucleideV::ThemedIcons(v) => fits_u32(v.len() as nat) && (forall|i: int|
            0 <= i < v.len() ==> file_fits(#[trigger] v[i])),
        NucleideV::LocalizedAssets(m) => strictly_sorted(m) && fits_u32(m.len() as nat) && (
        forall|i: int| 0 <= i < m.len() ==> file_fits(#[trigger] m[i].1)),
        NucleideV::Tags(v) => name_vec_fits(v),
        NucleideV::Categories(v) => fits_u32(v.len() as nat),
        NucleideV::Developer(s) => name_fits(s),
    }
}

// ---------------------------------------------------------------------------
// Decoding of arbitrary input
// ---------------------------------------------------------------------------
/// Decode one file from the front of `b`.
pub open spec fn dec_file(b: Seq<u8>) -> Result<(FileV, int), Error> {
    match dec_name(b) {
        Err(e) => Err(e),
        Ok((path, i)) => match uleb32_dec(b.skip(i)) {
            None => Err(Error::MalformedInteger),
            Some((len, j)) => if i + j + len <= b.len() {
                Ok(((path, b.subrange(i + j, i + j + len)), i + j + len))
            } else {
                Err(Error::MalformedString)
            },
        },
    }
}

/// Decode `count` files from the front of `b`, in order.
pub open spec fn dec_file_entries(b: Seq<u8>, count: nat, acc: Seq<FileV>) -> Result<
    (Seq<FileV>, int),
    Error,
>
    decreases count,
{
    if count == 0 {
        Ok((acc, 0))
    } else {
        match dec_file(b) {
            Err(e) => Err(e),
            Ok((f, i)) => add_off(dec_file_entries(b.skip(i), (count - 1) as nat, acc.push(f)), i),
        }
    }
}

/// Decode a file vector (count, then files) from the front of `b`.
pub open spec fn dec_file_vec(b: Seq<u8>) -> Result<(Seq<FileV>, int), Error> {
    match uleb32_dec(b) {
        None => Err(Error::MalformedInteger),
        Some((count, i)) => add_off(dec_file_entries(b.skip(i), count as nat, Seq::empty()), i),
    }
}

/// Decode `count` file-map entries from the front of `b`, inserting each
/// into `acc` (later duplicate keys overwrite earlier ones).
pub open spec fn dec_file_map_entries(b: Seq<u8>, count: nat, acc: FileMapV) -> Result<
    (FileMapV, int),
    Error,
>
    decreases count,
{
    if count == 0 {
        Ok((acc, 0))
    } else {
        match uleb32_dec(b) {
            None => Err(Error::MalformedInteger),
            Some((key, i)) => match dec_file(b.skip(i)) {
                Err(e) => Err(e),
                Ok((f, j)) => add_off(
                    dec_file_map_entries(b.skip(i + j), (count - 1) as nat, sorted_insert(acc, key, f)),
                    i + j,
                ),
            },
        }
    }
}

/// Decode a file map (count, then entries) from the front of `b`.
pub open spec fn dec_file_map(b: Seq<u8>) -> Result<(FileMapV, int), Error> {
    match uleb32_dec(b) {
        None => Err(Error::MalformedInteger),
        Some((count, i)) => add_off(dec_file_map_entries(b.skip(i), count as nat, Seq::empty()), i),
    }
}

/// Decode `count` categories from the front of `b`.  An identifier outside
/// the known set rejects the list.
pub open spec fn dec_cat_entries(b: Seq<u8>, count: nat, acc: Seq<Category>) -> Result<
    (Seq<Category>, int),
    Error,
>
    decreases count,
{
    if count == 0 {
        Ok((acc, 0))
    } else {
        match uleb32_dec(b) {
            None => Err(Error::MalformedInteger),
            Some((v, i)) => match category_of(v) {
                None => Err(Error::UnknownDiscriminant),
                Some(c) => add_off(
                    dec_cat_entries(b.skip(i), (count - 1) as nat, acc.push(c)),
                    i,
                ),
            },
        }
    }
}

/// Decode a category vector (count, then categories) from the front of `b`.
pub open spec fn dec_cat_vec(b: Seq<u8>) -> Result<(Seq<Category>, int), Error> {
    match uleb32_dec(b) {
        None => Err(Error::MalformedInteger),
        Some((count, i)) => add_off(dec_cat_entries(b.skip(i), count as nat, Seq::empty()), i),
    }
}

/// Decode `count` portals from the front of `b`.  Each must be a known
/// portal whose value is at least `min`, keeping the list strictly
/// increasing.
pub open spec fn dec_portal_entries(b: Seq<u8>, count: nat, min: nat, acc: Seq<Portal>) -> Result<
    (Seq<Portal>, int),
    Error,
>
    decreases count,
{
    if count == 0 {
        Ok((acc, 0))
    } else {
        match uleb32_dec(b) {
            None => Err(Error::MalformedInteger),
            Some((v, i)) => if (v as nat) < min {
                Err(Error::OutOfOrderField)
            } else {
                match portal_of(v) {
                    None => Err(Error::UnknownDiscriminant),
                    Some(p) => add_off(
                        dec_portal_entries(b.skip(i), (count - 1) as nat, v as nat + 1, acc.push(p)),
                        i,
                    ),
                }
            },
        }
    }
}

/// Decode one Nucleide subsection payload under its discriminant's
/// grammar, rejecting unknown discriminants and unconsumed trailing bytes.
pub open spec fn dec_nucleide_payload(id: u8, p: Seq<u8>) -> Result<NucleideV, Error> {
    if id == 0 || id == 1 {
        match dec_name_map(p) {
            Err(e) => Err(e),
            Ok(pair) => if pair.1 == p.len() {
                if id == 0 {
                    Ok(NucleideV::LocalizedNames(pair.0))
                } else {
                    Ok(NucleideV::LocalizedDescriptions(pair.0))
                }
            } else {
                Err(Error::TrailingBytes)
            },
        }
    } else if id == 2 {
        match dec_file_vec(p) {
            Err(e) => Err(e),
            Ok(pair) => if pair.1 == p.len() {
                Ok(NucleideV::ThemedIcons(pair.0))
            } else {
                Err(Error::TrailingBytes)
            },
        }
    } else if id == 3 {
        match dec_file_map(p) {
            Err(e) => Err(e),
            Ok(pair) => if pair.1 == p.len() {
                Ok(NucleideV::LocalizedAssets(pair.0))
            } else {
                Err(Error::TrailingBytes)
            },
        }
    } else if id == 4 {
        match dec_name_vec(p) {
            Err(e) => Err(e),
            Ok(pair) => if pair.1 == p.len() {
                Ok(NucleideV::Tags(pair.0))
            } else {
                Err(Error::TrailingBytes)
            },
        }
    } else if id == 5 {
        match dec_cat_vec(p) {
            Err(e) => Err(e),
            Ok(pair) => if pair.1 == p.len() {
                Ok(NucleideV::Categories(pair.0))
            } else {
                Err(Error::TrailingBytes)
            },
        }
    } else if id == 6 {
        match dec_name(p) {
            Err(e) => Err(e),
            Ok(pair) => if pair.1 == p.len() {
                Ok(NucleideV::Developer(pair.0))
            } else {
                Err(Error::TrailingBytes)
            },
        }
    } else {
        Err(Error::UnknownDiscriminant)
    }
}

/// Decode a whole Nucleide extension body, requiring strictly increasing
/// discriminants from `min` up.
pub open spec fn dec_nucleide(b: Seq<u8>, min: nat) -> Result<Seq<NucleideV>, Error> {
    dec_stream(b, min, |id: u8, p: Seq<u8>| dec_nucleide_payload(id, p))
}

/// Canonical encoding of a whole Nucleide extension body.
pub open spec fn enc_nucleide(ns: Seq<NucleideV>) -> Seq<u8> {
    enc_stream(ns, |n: NucleideV| nucleide_disc(n), |n: NucleideV| enc_nucleide_payload(n))
}

/// The Nucleide subsections' discriminants are strictly increasing.
pub open spec fn nucleide_ordered(ns: Seq<NucleideV>) -> bool {
    stream_ordered(ns, |n: NucleideV| nucleide_disc(n))
}

/// Every Nucleide subsection value is well formed.
pub open spec fn nucleide_values_wf(ns: Seq<NucleideV>) -> bool {
    forall|i: int| #![trigger ns[i]] 0 <= i < ns.len() ==> nucleide_v_wf(ns[i])
}

/// Every Nucleide subsection value is well formed and its payload fits in
/// a frame.
pub open spec fn nucleide_wf(ns: Seq<NucleideV>) -> bool {
    forall|i: int|
        #![trigger ns[i]]
        0 <= i < ns.len() ==> nucleide_v_wf(ns[i]) && fits_u32(
            enc_nucleide_payload(ns[i]).len() as nat,
        )
}

/// The portals' numeric values are strictly increasing.
pub open spec fn portals_ordered(ps: Seq<Portal>) -> bool {
    forall|i: int, j: int|
        #![trigger ps[i], ps[j]]
        0 <= i < j < ps.len() ==> portal_val(ps[i]) < portal_val(ps[j])
}

/// The mathematical value of a daku section: its portals and its Nucleide
/// subsections.
pub type DakuV = (Seq<Portal>, Seq<NucleideV>);

/// A daku section: the portals required by the application, plus optional
/// Nucleide desktop metadata.
#[derive(Clone, PartialEq, Eq, Debug)]
pub struct Daku {
    /// List of portals required by the application, in strictly increasing
    /// numeric order.
    pub portals: Vec<Portal>,
    /// Nucleide metadata extension subsections, in strictly increasing
    /// discriminant order; empty when the extension is absent.
    pub nucleide: Vec<Nucleide>,
}

impl View for Daku {
    type V = DakuV;

    open spec fn view(&self) -> DakuV {
        (self.portals@, nucleide_view(self.nucleide@))
    }
}

/// A daku value is well formed: portals strictly increasing and within the
/// count limit, Nucleide subsections well formed.
pub open spec fn daku_wf(d: DakuV) -> bool {
    &&& fits_u32(d.0.len() as nat)
    &&& portals_ordered(d.0)
    &&& nucleide_values_wf(d.1)
}

/// Decode a whole daku section body: the portal list, then the optional
/// Nucleide extension filling the rest of the buffer.
pub open spec fn dec_daku(b: Seq<u8>) -> Result<DakuV, Error> {
    match uleb32_dec(b) {
        None => Err(Error::MalformedInteger),
        Some((count, i)) => match dec_portal_entries(b.skip(i), count as nat, 0, Seq::empty()) {
            Err(e) => Err(e),
            Ok((ps, j)) => match dec_nucleide(b.skip(i + j), 0) {
                Err(e) => Err(e),
                Ok(ns) => Ok((ps, ns)),
            },
        },
    }
}

/// Canonical encoding of a whole daku section body.  An empty Nucleide
/// list contributes no bytes: the extension is simply absent.
pub open spec fn enc_daku(d: DakuV) -> Seq<u8> {
    uleb_bytes(d.0.len() as nat) + enc_portal_entries(d.0) + enc_nucleide(d.1)
}

/// Decode one category identifier from the front of `b`.
pub open spec fn dec_category(b: Seq<u8>) -> Result<(Category, int), Error> {
    match uleb32_dec(b) {
        None => Err(Error::MalformedInteger),
        Some((v, i)) => match category_of(v) {
            None => Err(Error::UnknownDiscriminant),
            Some(c) => Ok((c, i)),
        },
    }
}

/// Decode a portal list (count, then strictly increasing portals) from the
/// front of `b`.
pub open spec fn dec_portals(b: Seq<u8>) -> Result<(Seq<Portal>, int), Error> {
    match uleb32_dec(b) {
        None => Err(Error::MalformedInteger),
        Some((count, i)) => add_off(
            dec_portal_entries(b.skip(i), count as nat, 0, Seq::empty()),
            i,
        ),
    }
}

impl<'a> Reader<'a> {
    /// Parse one file: a path name, then a length-prefixed data blob.
    pub fn file(&mut self) -> (r: Result<File, Error>)
        requires
            old(self).wf(),
        ensures
            final(self).wf(),
            match dec_file(old(self).rem()) {
                Ok(p) => {
                    &&& r is Ok
                    &&& r->Ok_0@ == p.0
                    &&& file_fits(p.0)
                    &&& final(self).rem() == old(self).rem().skip(p.1)
                    &&& 0 < p.1 <= old(self).rem().len()
                },
                Err(e) => r is Err && r->Err_0 == e,
            },
    {
        let ghost b = old(self).rem();
        let path = match self.name() {
            Ok(s) => s,
            Err(e) => {
                return Err(e);
            },
        };
        let ghost i1 = dec_name(b)->Ok_0.1;
        let len = match self.integer() {
            Some(v) => v,
            None => {
                return Err(Error::MalformedInteger);
            },
        };
        let ghost i2 = (uleb32_dec(b.skip(i1))->0).1;
        let data = match self.bytes(len as usize) {
            Some(s) => vstd::slice::slice_to_vec(s),
            None => {
                proof {
                    crate::fields::lemma_skip_skip(b, i1, i2);
                }
                return Err(Error::MalformedString);
            },
        };
        proof {
            crate::fields::lemma_skip_skip(b, i1, i2);
            assert(b.skip(i1 + i2).take(len as int) =~= b.subrange(i1 + i2, i1 + i2 + len));
            crate::fields::lemma_skip_skip(b, i1 + i2, len as int);
            crate::fields::lemma_dec_name_fits(b);
        }
        Ok(File { path, data })
    }

    /// Parse a vector of files: a count, then that many files in order.
    pub fn file_vector(&mut self) -> (r: Result<Vec<File>, Error>)
        requires
            old(self).wf(),
        ensures
            final(self).wf(),
            match dec_file_vec(old(self).rem()) {
                Ok(p) => {
                    &&& r is Ok
                    &&& files_view(r->Ok_0@) == p.0
                    &&& fits_u32(p.0.len() as nat)
                    &&& forall|i: int| #![trigger p.0[i]] 0 <= i < p.0.len() ==> file_fits(p.0[i])
                    &&& final(self).rem() == old(self).rem().skip(p.1)
                    &&& 0 < p.1 <= old(self).rem().len()
                },
                Err(e) => r is Err && r->Err_0 == e,
            },
    {
        let ghost b0 = old(self).rem();
        let count = match self.integer() {
            Some(v) => v,
            None => {
                return Err(Error::MalformedInteger);
            },
        };
        let ghost n0 = (uleb32_dec(b0)->0).1;
        let ghost b = b0.skip(n0);
        let mut files: Vec<File> = Vec::new();
        let mut k: u32 = 0;
        let ghost mut done: int = 0;
        proof {
            assert(files_view(files@) =~= Seq::<FileV>::empty());
            assert(b.skip(0) =~= b);
            crate::fields::lemma_add_off_zero(dec_file_entries(b, count as nat, Seq::empty()));
        }
        while k < count
            invariant
                self.wf(),
                b0 == old(self).rem(),
                b == b0.skip(n0),
                0 < n0 <= b0.len(),
                uleb32_dec(b0) == Some((count, n0)),
                k <= count,
                files@.len() == k,
                0 <= done <= b.len(),
                self.rem() == b.skip(done),
                forall|j: int| #![trigger files@[j]] 0 <= j < files@.len() ==> file_fits(files@[j]@),
                dec_file_entries(b, count as nat, Seq::empty()) == add_off(
                    dec_file_entries(b.skip(done), (count - k) as nat, files_view(files@)),
                    done,
                ),
            decreases count - k,
        {
            let ghost cur = b.skip(done);
            let ghost acc = files_view(files@);
            let f = match self.file() {
                Ok(f) => f,
                Err(e) => {
                    return Err(e);
                },
            };
            proof {
                let p = dec_file(cur)->Ok_0;
                crate::fields::lemma_skip_skip(b, done, p.1);
                crate::fields::lemma_add_off_add(
                    dec_file_entries(b.skip(done + p.1), (count - k - 1) as nat, acc.push(p.0)),
                    p.1,
                    done,
                );
                done = done + p.1;
            }
            files.push(f);
            proof {
                assert(files_view(files@) =~= acc.push(files@[files@.len() - 1]@));
            }
            k = k + 1;
        }
        proof {
            assert(b.skip(done).len() == b.len() - done);
            crate::fields::lemma_skip_skip(b0, n0, done);
        }
        Ok(files)
    }

    /// Parse a map of files: a count, then that many `(index, file)` pairs,
    /// inserted in encounter order (later duplicate keys overwrite).
    pub fn file_map(&mut self) -> (r: Result<FileMap, Error>)
        requires
            old(self).wf(),
        ensures
            final(self).wf(),
            match dec_file_map(old(self).rem()) {
                Ok(p) => {
                    &&& r is Ok
                    &&& r->Ok_0@ == p.0
                    &&& r->Ok_0.wf()
                    &&& fits_u32(p.0.len() as nat)
                    &&& forall|i: int| #![trigger p.0[i]] 0 <= i < p.0.len() ==> file_fits(p.0[i].1)
                    &&& final(self).rem() == old(self).rem().skip(p.1)
                    &&& 0 < p.1 <= old(self).rem().len()
                },
                Err(e) => r is Err && r->Err_0 == e,
            },
    {
        let ghost b0 = old(self).rem();
        let count = match self.integer() {
            Some(v) => v,
            None => {
                return Err(Error::MalformedInteger);
            },
        };
        let ghost n0 = (uleb32_dec(b0)->0).1;
        let ghost b = b0.skip(n0);
        let mut map = FileMap::new();
        let mut k: u32 = 0;
        let ghost mut done: int = 0;
        proof {
            assert(b.skip(0) =~= b);
            crate::fields::lemma_add_off_zero(dec_file_map_entries(b, count as nat, Seq::empty()));
        }
        while k < count
            invariant
                self.wf(),
                map.wf(),
                b0 == old(self).rem(),
                b == b0.skip(n0),
                0 < n0 <= b0.len(),
                uleb32_dec(b0) == Some((count, n0)),
                k <= count,
                map@.len() <= k,
                0 <= done <= b.len(),
                self.rem() == b.skip(done),
                forall|j: int| #![trigger map@[j]] 0 <= j < map@.len() ==> file_fits(map@[j].1),
                dec_file_map_entries(b, count as nat, Seq::empty()) == add_off(
                    dec_file_map_entries(b.skip(done), (count - k) as nat, map@),
                    done,
                ),
            decreases count - k,
        {
            let ghost cur = b.skip(done);
            let ghost acc = map@;
            let key = match self.integer() {
                Some(v) => v,
                None => {
                    return Err(Error::MalformedInteger);
                },
            };
            let ghost ik = (uleb32_dec(cur)->0).1;
            let f = match self.file() {
                Ok(f) => f,
                Err(e) => {
                    proof {
                        crate::fields::lemma_skip_skip(b, done, ik);
                    }
                    return Err(e);
                },
            };
            proof {
                crate::fields::lemma_skip_skip(b, done, ik);
                let p = dec_file(cur.skip(ik))->Ok_0;
                crate::fields::lemma_skip_skip(b, done, ik + p.1);
                crate::fields::lemma_skip_skip(b, done + ik, p.1);
                crate::fields::lemma_add_off_add(
                    dec_file_map_entries(
                        b.skip(done + ik + p.1),
                        (count - k - 1) as nat,
                        sorted_insert(acc, key, p.0),
                    ),
                    ik + p.1,
                    done,
                );
                crate::maps::lemma_sorted_insert_len(acc, key, p.0);
                crate::maps::lemma_sorted_insert_values(acc, key, p.0, |f: FileV| file_fits(f));
                done = done + ik + p.1;
            }
            map.insert(key, f);
            k = k + 1;
        }
        proof {
            assert(b.skip(done).len() == b.len() - done);
            crate::fields::lemma_skip_skip(b0, n0, done);
        }
        Ok(map)
    }

    /// Parse one category identifier.
    pub fn category(&mut self) -> (r: Result<Category, Error>)
        requires
            old(self).wf(),
        ensures
            final(self).wf(),
            match dec_category(old(self).rem()) {
                Ok(p) => {
                    &&& r is Ok
                    &&& r->Ok_0 == p.0
                    &&& final(self).rem() == old(self).rem().skip(p.1)
                    &&& 0 < p.1 <= old(self).rem().len()
                },
                Err(e) => r is Err && r->Err_0 == e,
            },
    {
        let v = match self.integer() {
            Some(v) => v,
            None => {
                return Err(Error::MalformedInteger);
            },
        };
        match Category::from_u32(v) {
            Some(c) => Ok(c),
            None => Err(Error::UnknownDiscriminant),
        }
    }

    /// Parse a vector of categories: a count, then that many identifiers.
    pub fn category_vector(&mut self) -> (r: Result<Vec<Category>, Error>)
        requires
            old(self).wf(),
        ensures
            final(self).wf(),
            match dec_cat_vec(old(self).rem()) {
                Ok(p) => {
                    &&& r is Ok
                    &&& r->Ok_0@ == p.0
                    &&& fits_u32(p.0.len() as nat)
                    &&& final(self).rem() == old(self).rem().skip(p.1)
                    &&& 0 < p.1 <= old(self).rem().len()
                },
                Err(e) => r is Err && r->Err_0 == e,
            },
    {
        let ghost b0 = old(self).rem();
        let count = match self.integer() {
            Some(v) => v,
            None => {
                return Err(Error::MalformedInteger);
            },
        };
        let ghost n0 = (uleb32_dec(b0)->0).1;
        let ghost b = b0.skip(n0);
        let mut cats: Vec<Category> = Vec::new();
        let mut k: u32 = 0;
        let ghost mut done: int = 0;
        proof {
            assert(cats@ =~= Seq::<Category>::empty());
            assert(b.skip(0) =~= b);
            crate::fields::lemma_add_off_zero(dec_cat_entries(b, count as nat, Seq::empty()));
        }
        while k < count
            invariant
                self.wf(),
                b0 == old(self).rem(),
                b == b0.skip(n0),
                0 < n0 <= b0.len(),
                uleb32_dec(b0) == Some((count, n0)),
                k <= count,
                cats@.len() == k,
                0 <= done <= b.len(),
                self.rem() == b.skip(done),
                dec_cat_entries(b, count as nat, Seq::empty()) == add_off(
                    dec_cat_entries(b.skip(done), (count - k) as nat, cats@),
                    done,
                ),
            decreases count - k,
        {
            let ghost cur = b.skip(done);
            let ghost acc = cats@;
            let c = match self.category() {
                Ok(c) => c,
                Err(e) => {
                    return Err(e);
                },
            };
            proof {
                let p = dec_category(cur)->Ok_0;
                crate::fields::lemma_skip_skip(b, done, p.1);
                crate::fields::lemma_add_off_add(
                    dec_cat_entries(b.skip(done + p.1), (count - k - 1) as nat, acc.push(p.0)),
                    p.1,
                    done,
                );
                done = done + p.1;
            }
            cats.push(c);
            k = k + 1;
        }
        proof {
            assert(b.skip(done).len() == b.len() - done);
            crate::fields::lemma_skip_skip(b0, n0, done);
        }
        Ok(cats)
    }

    /// Parse the portal list of a daku section: a count, then that many
    /// portal identifiers in strictly increasing order.
    pub fn portals(&mut self) -> (r: Result<Vec<Portal>, Error>)
        requires
            old(self).wf(),
        ensures
            final(self).wf(),
            match dec_portals(old(self).rem()) {
                Ok(p) => {
                    &&& r is Ok
                    &&& r->Ok_0@ == p.0
                    &&& portals_ordered(p.0)
                    &&& fits_u32(p.0.len() as nat)
                    &&& final(self).rem() == old(self).rem().skip(p.1)
                    &&& 0 < p.1 <= old(self).rem().len()
                },
                Err(e) => r is Err && r->Err_0 == e,
            },
    {
        let ghost b0 = old(self).rem();
        let count = match self.integer() {
            Some(v) => v,
            None => {
                return Err(Error::MalformedInteger);
            },
        };
        let ghost n0 = (uleb32_dec(b0)->0).1;
        let ghost b = b0.skip(n0);
        let mut portals: Vec<Portal> = Vec::new();
        let mut min: u32 = 0;
        let mut k: u32 = 0;
        let ghost mut done: int = 0;
        proof {
            assert(portals@ =~= Seq::<Portal>::empty());
            assert(b.skip(0) =~= b);
            crate::fields::lemma_add_off_zero(
                dec_portal_entries(b, count as nat, 0, Seq::empty()),
            );
        }
        while k < count
            invariant
                self.wf(),
                b0 == old(self).rem(),
                b == b0.skip(n0),
                0 < n0 <= b0.len(),
                uleb32_dec(b0) == Some((count, n0)),
                k <= count,
                portals@.len() == k,
                0 <= done <= b.len(),
                self.rem() == b.skip(done),
                portals_ordered(portals@),
                forall|j: int|
                    #![trigger portals@[j]]
                    0 <= j < portals@.len() ==> portal_val(portals@[j]) < min,
                dec_portal_entries(b, count as nat, 0, Seq::empty()) == add_off(
                    dec_portal_entries(b.skip(done), (count - k) as nat, min as nat, portals@),
                    done,
                ),
            decreases count - k,
        {
            let ghost cur = b.skip(done);
            let ghost acc = portals@;
            let v = match self.integer() {
                Some(v) => v,
                None => {
                    return Err(Error::MalformedInteger);
                },
            };
            if v < min {
                return Err(Error::OutOfOrderField);
            }
            let p = match Portal::from_u32(v) {
                Some(p) => p,
                None => {
                    return Err(Error::UnknownDiscriminant);
                },
            };
            proof {
                let ik = (uleb32_dec(cur)->0).1;
                crate::fields::lemma_skip_skip(b, done, ik);
                crate::fields::lemma_add_off_add(
                    dec_portal_entries(
                        b.skip(done + ik),
                        (count - k - 1) as nat,
                        v as nat + 1,
                        acc.push(p),
                    ),
                    ik,
                    done,
                );
                done = done + ik;
                assert(portal_val(p) == v);
                assert forall|i1: int, i2: int|
                    #![trigger acc.push(p)[i1], acc.push(p)[i2]]
                    0 <= i1 < i2 < acc.push(p).len() implies portal_val(acc.push(p)[i1])
                    < portal_val(acc.push(p)[i2]) by {
                    if i2 < acc.len() {
                        assert(acc.push(p)[i1] == acc[i1]);
                        assert(acc.push(p)[i2] == acc[i2]);
                    } else {
                        assert(acc.push(p)[i2] == p);
                        assert(acc.push(p)[i1] == acc[i1]);
                    }
                }
            }
            portals.push(p);
            min = v + 1;
            k = k + 1;
            proof {
                assert forall|j: int|
                    #![trigger portals@[j]]
                    0 <= j < portals@.len() implies portal_val(portals@[j]) < min by {
                    if j < acc.len() {
                        assert(portals@[j] == acc[j]);
                    } else {
                        assert(portals@[j] == p);
                    }
                }
            }
        }
        proof {
            assert(b.skip(done).len() == b.len() - done);
            crate::fields::lemma_skip_skip(b0, n0, done);
        }
        Ok(portals)
    }
}

impl<'a> Reader<'a> {
    /// Parse one Nucleide subsection payload under discriminant `id` from a
    /// bounded reader, requiring the payload to be consumed entirely.
    fn nucleide_payload(rd: &mut Reader<'a>, id: u8) -> (r: Result<Nucleide, Error>)
        requires
            old(rd).wf(),
        ensures
            final(rd).wf(),
            match dec_nucleide_payload(id, old(rd).rem()) {
                Ok(nv) => r is Ok && r->Ok_0@ == nv && nucleide_v_wf(nv),
                Err(e) => r is Err && r->Err_0 == e,
            },
    {
        let ghost p = old(rd).rem();
        let value: Nucleide = if id == 0 || id == 1 {
            match rd.name_map() {
                Ok(m) => {
                    proof {
                        crate::fields::lemma_dec_name_map_fits(p);
                    }
                    if id == 0 {
                        Nucleide::LocalizedNames(m)
                    } else {
                        Nucleide::LocalizedDescriptions(m)
                    }
                },
                Err(e) => {
                    return Err(e);
                },
            }
        } else if id == 2 {
            match rd.file_vector() {
                Ok(v) => Nucleide::ThemedIcons(v),
                Err(e) => {
                    return Err(e);
                },
            }
        } else if id == 3 {
            match rd.file_map() {
                Ok(m) => Nucleide::LocalizedAssets(m),
                Err(e) => {
                    return Err(e);
                },
            }
        } else if id == 4 {
            match rd.name_vector() {
                Ok(v) => {
                    proof {
                        crate::fields::lemma_dec_name_vec_fits(p);
                        assert(Seq::new(v@.len(), |i: int| v@[i]@) =~= v.deep_view());
                    }
                    Nucleide::Tags(v)
                },
                Err(e) => {
                    return Err(e);
                },
            }
        } else if id == 5 {
            match rd.category_vector() {
                Ok(v) => Nucleide::Categories(v),
                Err(e) => {
                    return Err(e);
                },
            }
        } else if id == 6 {
            match rd.name() {
                Ok(s) => {
                    proof {
                        crate::fields::lemma_dec_name_fits(p);
                    }
                    Nucleide::Developer(s)
                },
                Err(e) => {
                    return Err(e);
                },
            }
        } else {
            return Err(Error::UnknownDiscriminant);
        };
        match rd.end() {
            Some(_) => Ok(value),
            None => Err(Error::TrailingBytes),
        }
    }

    /// Parse a whole Nucleide extension body: an ordered-subsection stream
    /// over the seven metadata kinds, consuming the rest of the buffer.
    pub fn nucleide(&mut self) -> (r: Result<Vec<Nucleide>, Error>)
        requires
            old(self).wf(),
        ensures
            final(self).wf(),
            match dec_nucleide(old(self).rem(), 0) {
                Ok(ns) => {
                    &&& r is Ok
                    &&& nucleide_view(r->Ok_0@) == ns
                    &&& nucleide_values_wf(ns)
                    &&& final(self).rem().len() == 0
                },
                Err(e) => r is Err && r->Err_0 == e,
            },
    {
        let ghost b0 = old(self).rem();
        let mut subs: Vec<Nucleide> = Vec::new();
        let mut min: u32 = 0;
        proof {
            assert(nucleide_view(subs@) =~= Seq::<NucleideV>::empty());
        }
        while self.end().is_none()
            invariant
                self.wf(),
                b0 == old(self).rem(),
                min <= 7,
                forall|a: int|
                    #![trigger subs@[a]]
                    0 <= a < subs@.len() ==> nucleide_v_wf(subs@[a]@),
                dec_nucleide(b0, 0) == crate::stream::prepend(
                    nucleide_view(subs@),
                    dec_nucleide(self.rem(), min as nat),
                ),
            decreases self.rem().len(),
        {
            let ghost cur = self.rem();
            let ghost acc = nucleide_view(subs@);
            let (id, mut rd) = match self.subsection() {
                Ok(p) => p,
                Err(e) => {
                    return Err(e);
                },
            };
            if (id as u32) < min {
                return Err(Error::OutOfOrderField);
            }
            let sub = match Reader::nucleide_payload(&mut rd, id) {
                Ok(n) => n,
                Err(e) => {
                    return Err(e);
                },
            };
            proof {
                let nv = dec_nucleide_payload(id, (dec_frame(cur)->Ok_0).0.1)->Ok_0;
                let n = (dec_frame(cur)->Ok_0).1;
                let tail_r = dec_nucleide(cur.skip(n), id as nat + 1);
                assert(dec_nucleide(cur, min as nat) == match tail_r {
                    Ok(t) => Ok::<Seq<NucleideV>, Error>(seq![nv] + t),
                    Err(e) => Err::<Seq<NucleideV>, Error>(e),
                });
                match tail_r {
                    Ok(t) => {
                        assert(acc + (seq![nv] + t) =~= acc.push(nv) + t);
                    },
                    Err(_) => {},
                }
            }
            subs.push(sub);
            proof {
                assert(nucleide_view(subs@) =~= acc.push(subs@[subs@.len() - 1]@));
            }
            min = id as u32 + 1;
        }
        proof {
            assert(dec_nucleide(self.rem(), min as nat) == Ok::<Seq<NucleideV>, Error>(
                Seq::empty(),
            ));
            assert(nucleide_view(subs@) + Seq::<NucleideV>::empty() =~= nucleide_view(subs@));
        }
        Ok(subs)
    }

    /// Parse a whole daku section body: the portal list, then the optional
    /// Nucleide extension filling the rest of the buffer.
    pub fn daku(&mut self) -> (r: Result<Daku, Error>)
        requires
            old(self).wf(),
        ensures
            final(self).wf(),
            match dec_daku(old(self).rem()) {
                Ok(d) => {
                    &&& r is Ok
                    &&& r->Ok_0@ == d
                    &&& daku_wf(d)
                    &&& final(self).rem().len() == 0
                },
                Err(e) => r is Err && r->Err_0 == e,
            },
    {
        let ghost b0 = old(self).rem();
        let portals = match self.portals() {
            Ok(p) => p,
            Err(e) => {
                return Err(e);
            },
        };
        let nucleide = match self.nucleide() {
            Ok(n) => n,
            Err(e) => {
                return Err(e);
            },
        };
        Ok(Daku { portals, nucleide })
    }
}

impl Writer {
    /// Write out one file: path name, then length-prefixed data.
    pub fn file(&mut self, file: &File)
        requires
            file_fits(file@),
        ensures
            final(self)@ == old(self)@ + enc_file(file@),
    {
        self.name(file.path.as_str());
        self.integer(file.data.len() as u32);
        self.bytes(file.data.as_slice());
        proof {
            assert(self@ =~= old(self)@ + enc_file(file@));
        }
    }

    /// Write out a vector of files: count, then files in order.
    pub fn file_vector(&mut self, files: &[File])
        requires
            fits_u32(files@.len() as nat),
            forall|i: int| #![trigger files@[i]] 0 <= i < files@.len() ==> file_fits(files@[i]@),
        ensures
            final(self)@ == old(self)@ + enc_file_vec(files_view(files@)),
    {
        let ghost v = files_view(files@);
        let count = files.len();
        self.integer(count as u32);
        let mut i: usize = 0;
        while i < count
            invariant
                count == files@.len(),
                v == files_view(files@),
                forall|a: int| #![trigger files@[a]] 0 <= a < files@.len() ==> file_fits(files@[a]@),
                i <= count,
                self@ == old(self)@ + uleb_bytes(count as nat) + enc_file_entries(v.take(i as int)),
            decreases count - i,
        {
            assert(files@[i as int]@ == v[i as int]);
            self.file(&files[i]);
            proof {
                assert(v.take(i + 1) =~= v.take(i as int) + seq![v[i as int]]);
                lemma_enc_file_entries_concat(v.take(i as int), seq![v[i as int]]);
                lemma_enc_file_entries_one(v[i as int]);
                assert(self@ =~= old(self)@ + uleb_bytes(count as nat) + enc_file_entries(
                    v.take(i + 1),
                ));
            }
            i = i + 1;
        }
        proof {
            assert(v.take(count as int) =~= v);
            assert(old(self)@ + uleb_bytes(count as nat) + enc_file_entries(v) =~= old(self)@
                + enc_file_vec(v));
        }
    }

    /// Write out a map of files: entry count, then `(index, file)` pairs in
    /// key order.
    pub fn file_map(&mut self, map: &FileMap)
        requires
            map.wf(),
            fits_u32(map@.len() as nat),
            forall|i: int| #![trigger map@[i]] 0 <= i < map@.len() ==> file_fits(map@[i].1),
        ensures
            final(self)@ == old(self)@ + enc_file_map(map@),
    {
        let count = map.len();
        self.integer(count as u32);
        let mut i: usize = 0;
        while i < count
            invariant
                count == map@.len(),
                map.wf(),
                forall|a: int| #![trigger map@[a]] 0 <= a < map@.len() ==> file_fits(map@[a].1),
                i <= count,
                self@ == old(self)@ + uleb_bytes(count as nat) + enc_file_map_entries(
                    map@.take(i as int),
                ),
            decreases count - i,
        {
            let entry = map.get(i);
            self.integer(entry.0);
            self.file(&entry.1);
            proof {
                assert(map@.take(i + 1) =~= map@.take(i as int) + seq![map@[i as int]]);
                lemma_enc_file_map_entries_concat(map@.take(i as int), seq![map@[i as int]]);
                lemma_enc_file_map_entries_one(map@[i as int]);
                assert(self@ =~= old(self)@ + uleb_bytes(count as nat) + enc_file_map_entries(
                    map@.take(i + 1),
                ));
            }
            i = i + 1;
        }
        proof {
            assert(map@.take(count as int) =~= map@);
            assert(old(self)@ + uleb_bytes(count as nat) + enc_file_map_entries(map@) =~= old(
                self,
            )@ + enc_file_map(map@));
        }
    }

    /// Write out one category identifier.
    pub fn category(&mut self, category: Category)
        ensures
            final(self)@ == old(self)@ + uleb_bytes(category_val(category) as nat),
    {
        self.integer(category.value());
    }

    /// Write out a vector of categories: count, then identifiers in order.
    pub fn category_vector(&mut self, categories: &[Category])
        requires
            fits_u32(categories@.len() as nat),
        ensures
            final(self)@ == old(self)@ + enc_cat_vec(categories@),
    {
        let ghost v = categories@;
        let count = categories.len();
        self.integer(count as u32);
        let mut i: usize = 0;
        while i < count
            invariant
                count == v.len(),
                v == categories@,
                i <= count,
                self@ == old(self)@ + uleb_bytes(count as nat) + enc_cat_entries(v.take(i as int)),
            decreases count - i,
        {
            self.category(categories[i]);
            proof {
                assert(v.take(i + 1) =~= v.take(i as int) + seq![v[i as int]]);
                lemma_enc_cat_entries_concat(v.take(i as int), seq![v[i as int]]);
                lemma_enc_cat_entries_one(v[i as int]);
                assert(self@ =~= old(self)@ + uleb_bytes(count as nat) + enc_cat_entries(
                    v.take(i + 1),
                ));
            }
            i = i + 1;
        }
        proof {
            assert(v.take(count as int) =~= v);
            assert(old(self)@ + uleb_bytes(count as nat) + enc_cat_entries(v) =~= old(self)@
                + enc_cat_vec(v));
        }
    }

    /// Write out a portal list: count, then identifiers in order.  The
    /// caller is responsible for the strictly-increasing order; the bytes
    /// written are the identifiers as given.
    pub fn portals(&mut self, portals: &[Portal])
        requires
            fits_u32(portals@.len() as nat),
        ensures
            final(self)@ == old(self)@ + uleb_bytes(portals@.len() as nat) + enc_portal_entries(
                portals@,
            ),
    {
        let ghost v = portals@;
        let count = portals.len();
        self.integer(count as u32);
        let mut i: usize = 0;
        while i < count
            invariant
                count == v.len(),
                v == portals@,
                i <= count,
                self@ == old(self)@ + uleb_bytes(count as nat) + enc_portal_entries(
                    v.take(i as int),
                ),
            decreases count - i,
        {
            self.integer(portals[i].value());
            proof {
                assert(v.take(i + 1) =~= v.take(i as int) + seq![v[i as int]]);
                lemma_enc_portal_entries_concat(v.take(i as int), seq![v[i as int]]);
                lemma_enc_portal_entries_one(v[i as int]);
                assert(self@ =~= old(self)@ + uleb_bytes(count as nat) + enc_portal_entries(
                    v.take(i + 1),
                ));
            }
            i = i + 1;
        }
        proof {
            assert(v.take(count as int) =~= v);
        }
    }

    /// Write one Nucleide subsection's payload (without its frame).
    fn nucleide_payload(&mut self, sub: &Nucleide)
        requires
            nucleide_v_wf(sub@),
        ensures
            final(self)@ == old(self)@ + enc_nucleide_payload(sub@),
    {
        match sub {
            Nucleide::LocalizedNames(m) => self.name_map(m),
            Nucleide::LocalizedDescriptions(m) => self.name_map(m),
            Nucleide::ThemedIcons(v) => {
                proof {
                    assert forall|i: int| 0 <= i < v@.len() implies file_fits(
                        #[trigger] v@[i]@,
                    ) by {
                        assert(files_view(v@)[i] == v@[i]@);
                    }
                }
                self.file_vector(v.as_slice());
            },
            Nucleide::LocalizedAssets(m) => self.file_map(m),
            Nucleide::Tags(v) => {
                proof {
                    assert(Seq::new(v@.len(), |i: int| v@[i]@) =~= v.deep_view());
                }
                self.name_vector(v);
            },
            Nucleide::Categories(v) => self.category_vector(v.as_slice()),
            Nucleide::Developer(s) => self.name(s.as_str()),
        }
    }

    /// Write out a whole Nucleide extension body.  The subsections must
    /// come in strictly increasing discriminant order and every payload
    /// must fit behind its 32-bit length prefix; a violation is a
    /// construction-time contract error, reported without writing anything.
    pub fn nucleide(&mut self, subsections: &[Nucleide]) -> (r: Result<(), Error>)
        requires
            forall|i: int|
                #![trigger subsections@[i]]
                0 <= i < subsections@.len() ==> nucleide_v_wf(subsections@[i]@),
        ensures
            match r {
                Ok(_) => {
                    &&& nucleide_ordered(nucleide_view(subsections@))
                    &&& nucleide_wf(nucleide_view(subsections@))
                    &&& final(self)@ == old(self)@ + enc_nucleide(nucleide_view(subsections@))
                },
                Err(e) => {
                    &&& e == Error::BuilderContractViolation
                    &&& !(nucleide_ordered(nucleide_view(subsections@)) && nucleide_wf(
                        nucleide_view(subsections@),
                    ))
                    &&& final(self)@ == old(self)@
                },
            },
    {
        let ghost v = nucleide_view(subsections@);
        let mut out = Writer::new();
        let mut min: u32 = 0;
        let mut i: usize = 0;
        while i < subsections.len()
            invariant
                i <= subsections@.len(),
                v == nucleide_view(subsections@),
                forall|a: int|
                    #![trigger subsections@[a]]
                    0 <= a < subsections@.len() ==> nucleide_v_wf(subsections@[a]@),
                forall|a: int, b: int|
                    #![trigger v[a], v[b]]
                    0 <= a < b < i ==> nucleide_disc(v[a]) < nucleide_disc(v[b]),
                forall|a: int| #![trigger v[a]] 0 <= a < i ==> nucleide_disc(v[a]) < min,
                forall|a: int|
                    #![trigger v[a]]
                    0 <= a < i ==> fits_u32(enc_nucleide_payload(v[a]).len() as nat),
                i > 0 ==> min == nucleide_disc(v[i - 1]) as u32 + 1,
                min <= 7,
                i == 0 ==> min == 0,
                out@ == enc_nucleide(v.take(i as int)),
            decreases subsections@.len() - i,
        {
            let sub = &subsections[i];
            assert(sub@ == v[i as int]);
            let disc = sub.discriminant();
            if (disc as u32) < min {
                proof {
                    assert(i > 0);
                    assert(disc == nucleide_disc(v[i as int]));
                    assert(min == nucleide_disc(v[i as int - 1]) as u32 + 1);
                    assert(nucleide_disc(v[i as int - 1]) >= nucleide_disc(v[i as int]));
                    let dd = |n: NucleideV| nucleide_disc(n);
                    assert(dd(v[i as int - 1]) >= dd(v[i as int]));
                    assert(!stream_ordered(v, dd));
                }
                return Err(Error::BuilderContractViolation);
            }
            let mut w = Writer::new();
            w.nucleide_payload(sub);
            let payload = w.into_buffer();
            if payload.len() > 0xffff_ffff {
                proof {
                    assert(!fits_u32(enc_nucleide_payload(v[i as int]).len() as nat));
                    assert(!nucleide_wf(v));
                }
                return Err(Error::BuilderContractViolation);
            }
            out.subsection(disc, payload.as_slice());
            proof {
                let dd = |n: NucleideV| nucleide_disc(n);
                let ep = |n: NucleideV| enc_nucleide_payload(n);
                assert(v.take(i + 1) =~= v.take(i as int) + seq![v[i as int]]);
                crate::stream::lemma_enc_stream_concat(v.take(i as int), seq![v[i as int]], dd, ep);
                crate::stream::lemma_enc_stream_one(v[i as int], dd, ep);
                assert(out@ == enc_nucleide(v.take(i + 1)));
            }
            min = disc as u32 + 1;
            i = i + 1;
        }
        proof {
            assert(v.take(v.len() as int) =~= v);
        }
        let buf = out.into_buffer();
        self.bytes(buf.as_slice());
        Ok(())
    }

    /// Write out a whole daku section body.  The portals must be in
    /// strictly increasing numeric order and the Nucleide subsections must
    /// satisfy the same rules as [`Writer::nucleide`]; a violation is a
    /// construction-time contract error, reported without writing anything.
    pub fn daku(&mut self, daku: &Daku) -> (r: Result<(), Error>)
        requires
            forall|i: int|
                #![trigger daku.nucleide@[i]]
                0 <= i < daku.nucleide@.len() ==> nucleide_v_wf(daku.nucleide@[i]@),
        ensures
            match r {
                Ok(_) => {
                    &&& daku_wf(daku@)
                    &&& nucleide_ordered(daku@.1)
                    &&& nucleide_wf(daku@.1)
                    &&& final(self)@ == old(self)@ + enc_daku(daku@)
                },
                Err(e) => {
                    &&& e == Error::BuilderContractViolation
                    &&& !(daku_wf(daku@) && nucleide_ordered(daku@.1) && nucleide_wf(daku@.1))
                    &&& final(self)@ == old(self)@
                },
            },
    {
        let ghost pv = daku.portals@;
        if daku.portals.len() > 0xffff_ffff {
            proof {
                assert(!fits_u32(pv.len() as nat));
            }
            return Err(Error::BuilderContractViolation);
        }
        let mut min: u32 = 0;
        let mut i: usize = 0;
        while i < daku.portals.len()
            invariant
                pv == daku.portals@,
                i <= pv.len(),
                forall|a: int, b: int|
                    #![trigger pv[a], pv[b]]
                    0 <= a < b < i ==> portal_val(pv[a]) < portal_val(pv[b]),
                forall|a: int| #![trigger pv[a]] 0 <= a < i ==> portal_val(pv[a]) < min,
                i > 0 ==> min == portal_val(pv[i - 1]) + 1,
                min <= 0x14,
                i == 0 ==> min == 0,
            decreases pv.len() - i,
        {
            let val = daku.portals[i].value();
            if val < min {
                proof {
                    assert(i > 0);
                    assert(portal_val(pv[i as int - 1]) >= portal_val(pv[i as int]));
                    assert(!portals_ordered(pv));
                }
                return Err(Error::BuilderContractViolation);
            }
            proof {
                lemma_portal_val_of(daku.portals@[i as int]);
            }
            min = val + 1;
            i = i + 1;
        }
        let mut out = Writer::new();
        out.portals(daku.portals.as_slice());
        match out.nucleide(daku.nucleide.as_slice()) {
            Ok(_) => {},
            Err(e) => {
                return Err(e);
            },
        }
        let buf = out.into_buffer();
        self.bytes(buf.as_slice());
        proof {
            assert(self@ =~= old(self)@ + enc_daku(daku@));
        }
        Ok(())
    }
}

impl Nucleide {
    /// The wire discriminant of this subsection's kind.
    pub fn discriminant(&self) -> (r: u8)
        ensures
            r == nucleide_disc(self@),
    {
        match self {
            Nucleide::LocalizedNames(_) => 0,
            Nucleide::LocalizedDescriptions(_) => 1,
            Nucleide::ThemedIcons(_) => 2,
            Nucleide::LocalizedAssets(_) => 3,
            Nucleide::Tags(_) => 4,
            Nucleide::Categories(_) => 5,
            Nucleide::Developer(_) => 6,
        }
    }
}

/// Incremental builder for an ordered set of requested portals.
#[derive(Clone, PartialEq, Eq, Debug)]
pub struct Portals {
    values: Vec<Portal>,
    min: u32,
}

impl View for Portals {
    type V = Seq<Portal>;

    closed spec fn view(&self) -> Seq<Portal> {
        self.values@
    }
}

impl Portals {
    /// The appended portals are strictly increasing and the threshold sits
    /// just above the last of them.
    pub closed spec fn wf(&self) -> bool {
        &&& portals_ordered(self.values@)
        &&& (self.values@.len() == 0 ==> self.min == 0)
        &&& (self.values@.len() > 0 ==> self.min == portal_val(
            self.values@[self.values@.len() - 1],
        ) + 1)
    }

    /// Create an empty set of portals.
    pub fn new() -> (r: Portals)
        ensures
            r.wf(),
            r@ == Seq::<Portal>::empty(),
    {
        Portals { values: Vec::new(), min: 0 }
    }

    /// Append a portal to the ordered set.
    ///
    /// Succeeds exactly when the portal's value is strictly greater than
    /// every portal already appended; otherwise the set is unchanged and a
    /// construction-time contract error is reported at once.
    pub fn append(self, portal: Portal) -> (r: Result<Portals, Error>)
        requires
            self.wf(),
        ensures
            match r {
                Ok(p) => {
                    &&& p.wf()
                    &&& p@ == self@.push(portal)
                    &&& forall|i: int|
                        #![trigger self@[i]]
                        0 <= i < self@.len() ==> portal_val(self@[i]) < portal_val(portal)
                },
                Err(e) => {
                    &&& e == Error::BuilderContractViolation
                    &&& self@.len() > 0
                    &&& !(portal_val(self@[self@.len() - 1]) < portal_val(portal))
                },
            },
    {
        let val = portal.value();
        if val < self.min {
            proof {
                if self@.len() == 0 {
                    assert(false);
                }
            }
            return Err(Error::BuilderContractViolation);
        }
        proof {
            assert forall|i: int| #![trigger self@[i]] 0 <= i < self@.len() implies portal_val(
                self@[i],
            ) < portal_val(portal) by {
                if i < self@.len() - 1 {
                    assert(portal_val(self@[i]) < portal_val(self@[self@.len() - 1]));
                }
            }
        }
        let mut values = self.values;
        let ghost old_vals = values@;
        values.push(portal);
        proof {
            lemma_portal_val_of(portal);
            assert forall|i1: int, i2: int|
                #![trigger values@[i1], values@[i2]]
                0 <= i1 < i2 < values@.len() implies portal_val(values@[i1]) < portal_val(
                values@[i2],
            ) by {
                if i2 < old_vals.len() {
                    assert(values@[i1] == old_vals[i1]);
                    assert(values@[i2] == old_vals[i2]);
                } else {
                    assert(values@[i2] == portal);
                    assert(values@[i1] == old_vals[i1]);
                }
            }
        }
        Ok(Portals { values, min: val + 1 })
    }
}

// ---------------------------------------------------------------------------
// Round trips and bounds of decoded values
// ---------------------------------------------------------------------------
/// Files encode piecewise.
pub proof fn lemma_enc_file_entries_concat(a: Seq<FileV>, b: Seq<FileV>)
    ensures
        enc_file_entries(a + b) == enc_file_entries(a) + enc_file_entries(b),
    decreases a.len(),
{
    if a.len() == 0 {
        assert(a + b =~= b);
        assert(enc_file_entries(a) + enc_file_entries(b) =~= enc_file_entries(b));
    } else {
        assert((a + b).skip(1) =~= a.skip(1) + b);
        lemma_enc_file_entries_concat(a.skip(1), b);
        assert((a + b)[0] == a[0]);
        assert(enc_file_entries(a + b) =~= enc_file_entries(a) + enc_file_entries(b));
    }
}

/// A single file entry encodes to that file alone.
pub proof fn lemma_enc_file_entries_one(e: FileV)
    ensures
        enc_file_entries(seq![e]) == enc_file(e),
{
    let s = seq![e];
    assert(s.len() == 1);
    assert(s[0] == e);
    assert(s.skip(1) =~= Seq::<FileV>::empty());
    assert(enc_file_entries(s.skip(1)) == Seq::<u8>::empty());
    assert(enc_file_entries(s) == enc_file(e) + enc_file_entries(s.skip(1)));
    assert(enc_file(e) + Seq::<u8>::empty() =~= enc_file(e));
}

/// File-map entries encode piecewise.
pub proof fn lemma_enc_file_map_entries_concat(a: FileMapV, b: FileMapV)
    ensures
        enc_file_map_entries(a + b) == enc_file_map_entries(a) + enc_file_map_entries(b),
    decreases a.len(),
{
    if a.len() == 0 {
        assert(a + b =~= b);
        assert(enc_file_map_entries(a) + enc_file_map_entries(b) =~= enc_file_map_entries(b));
    } else {
        assert((a + b).skip(1) =~= a.skip(1) + b);
        lemma_enc_file_map_entries_concat(a.skip(1), b);
        assert((a + b)[0] == a[0]);
        assert(enc_file_map_entries(a + b) =~= enc_file_map_entries(a) + enc_file_map_entries(b));
    }
}

/// A single file-map entry encodes to its key then its file.
pub proof fn lemma_enc_file_map_entries_one(e: (u32, FileV))
    ensures
        enc_file_map_entries(seq![e]) == uleb_bytes(e.0 as nat) + enc_file(e.1),
{
    let s = seq![e];
    assert(s.len() == 1);
    assert(s[0] == e);
    assert(s.skip(1) =~= Seq::<(u32, FileV)>::empty());
    assert(enc_file_map_entries(s.skip(1)) == Seq::<u8>::empty());
    assert(enc_file_map_entries(s) == uleb_bytes(e.0 as nat) + enc_file(e.1)
        + enc_file_map_entries(s.skip(1)));
    assert(uleb_bytes(e.0 as nat) + enc_file(e.1) + Seq::<u8>::empty() =~= uleb_bytes(e.0 as nat)
        + enc_file(e.1));
}

/// Categories encode piecewise.
pub proof fn lemma_enc_cat_entries_concat(a: Seq<Category>, b: Seq<Category>)
    ensures
        enc_cat_entries(a + b) == enc_cat_entries(a) + enc_cat_entries(b),
    decreases a.len(),
{
    if a.len() == 0 {
        assert(a + b =~= b);
        assert(enc_cat_entries(a) + enc_cat_entries(b) =~= enc_cat_entries(b));
    } else {
        assert((a + b).skip(1) =~= a.skip(1) + b);
        lemma_enc_cat_entries_concat(a.skip(1), b);
        assert((a + b)[0] == a[0]);
        assert(enc_cat_entries(a + b) =~= enc_cat_entries(a) + enc_cat_entries(b));
    }
}

/// A single category entry encodes to its identifier alone.
pub proof fn lemma_enc_cat_entries_one(e: Category)
    ensures
        enc_cat_entries(seq![e]) == uleb_bytes(category_val(e) as nat),
{
    let s = seq![e];
    assert(s.len() == 1);
    assert(s[0] == e);
    assert(s.skip(1) =~= Seq::<Category>::empty());
    assert(enc_cat_entries(s.skip(1)) == Seq::<u8>::empty());
    assert(enc_cat_entries(s) == uleb_bytes(category_val(e) as nat) + enc_cat_entries(s.skip(1)));
    assert(uleb_bytes(category_val(e) as nat) + Seq::<u8>::empty() =~= uleb_bytes(
        category_val(e) as nat,
    ));
}

/// Portals encode piecewise.
pub proof fn lemma_enc_portal_entries_concat(a: Seq<Portal>, b: Seq<Portal>)
    ensures
        enc_portal_entries(a + b) == enc_portal_entries(a) + enc_portal_entries(b),
    decreases a.len(),
{
    if a.len() == 0 {
        assert(a + b =~= b);
        assert(enc_portal_entries(a) + enc_portal_entries(b) =~= enc_portal_entries(b));
    } else {
        assert((a + b).skip(1) =~= a.skip(1) + b);
        lemma_enc_portal_entries_concat(a.skip(1), b);
        assert((a + b)[0] == a[0]);
        assert(enc_portal_entries(a + b) =~= enc_portal_entries(a) + enc_portal_entries(b));
    }
}

/// A single portal entry encodes to its identifier alone.
pub proof fn lemma_enc_portal_entries_one(e: Portal)
    ensures
        enc_portal_entries(seq![e]) == uleb_bytes(portal_val(e) as nat),
{
    let s = seq![e];
    assert(s.len() == 1);
    assert(s[0] == e);
    assert(s.skip(1) =~= Seq::<Portal>::empty());
    assert(enc_portal_entries(s.skip(1)) == Seq::<u8>::empty());
    assert(enc_portal_entries(s) == uleb_bytes(portal_val(e) as nat) + enc_portal_entries(
        s.skip(1),
    ));
    assert(uleb_bytes(portal_val(e) as nat) + Seq::<u8>::empty() =~= uleb_bytes(
        portal_val(e) as nat,
    ));
}

/// A file decodes back from the front of any buffer that starts with its
/// canonical encoding.
pub proof fn lemma_dec_file_enc(f: FileV, rest: Seq<u8>)
    requires
        file_fits(f),
    ensures
        dec_file(enc_file(f) + rest) == Ok::<(FileV, int), Error>((f, enc_file(f).len() as int)),
{
    let e1 = enc_name(f.0);
    let e2 = uleb_bytes(f.1.len() as nat);
    let b = enc_file(f) + rest;
    assert(b =~= e1 + (e2 + (f.1 + rest)));
    lemma_dec_name_enc(f.0, e2 + (f.1 + rest));
    let l1 = e1.len() as int;
    assert(b.skip(l1) =~= e2 + (f.1 + rest));
    crate::varint::lemma_uleb32_dec_prefix(f.1.len() as nat, f.1 + rest);
    let l2 = e2.len() as int;
    assert(uleb32_dec(b.skip(l1)) == Some((f.1.len() as u32, l2)));
    assert(b.subrange(l1 + l2, l1 + l2 + f.1.len() as int) =~= f.1);
    assert((f.0, b.subrange(l1 + l2, l1 + l2 + f.1.len() as int)) == f);
}

/// A decoded file's path and data length are within 32-bit bounds.
pub proof fn lemma_dec_file_fits(b: Seq<u8>)
    ensures
        dec_file(b) matches Ok(p) ==> file_fits(p.0),
{
    crate::fields::lemma_dec_name_fits(b);
    match dec_name(b) {
        Err(_) => {},
        Ok((path, i)) => {
            crate::varint::lemma_uleb32_from_pos(b, 0, 0, 0);
            match uleb32_dec(b.skip(i)) {
                None => {},
                Some((len, j)) => {
                    if i + j + len <= b.len() {
                        crate::varint::lemma_uleb32_from_pos(b.skip(i), 0, 0, 0);
                        assert(b.subrange(i + j, i + j + len).len() == len);
                    }
                },
            }
        },
    }
}

/// Files decode back to the accumulator followed by those files.
pub proof fn lemma_dec_file_entries_enc(v: Seq<FileV>, acc: Seq<FileV>, rest: Seq<u8>)
    requires
        forall|i: int| #![trigger v[i]] 0 <= i < v.len() ==> file_fits(v[i]),
    ensures
        dec_file_entries(enc_file_entries(v) + rest, v.len() as nat, acc) == Ok::<
            (Seq<FileV>, int),
            Error,
        >((acc + v, enc_file_entries(v).len() as int)),
    decreases v.len(),
{
    if v.len() == 0 {
        assert(acc + v =~= acc);
        assert(enc_file_entries(v) + rest =~= rest);
    } else {
        let e1 = enc_file(v[0]);
        let e2 = enc_file_entries(v.skip(1));
        let b = enc_file_entries(v) + rest;
        assert(b =~= e1 + (e2 + rest));
        lemma_dec_file_enc(v[0], e2 + rest);
        let l1 = e1.len() as int;
        assert(dec_file(b) == Ok::<(FileV, int), Error>((v[0], l1)));
        assert(b.skip(l1) =~= e2 + rest);
        assert forall|i: int| #![trigger v.skip(1)[i]] 0 <= i < v.skip(1).len() implies file_fits(
            v.skip(1)[i],
        ) by {
            assert(v.skip(1)[i] == v[i + 1]);
        }
        lemma_dec_file_entries_enc(v.skip(1), acc.push(v[0]), rest);
        assert(acc.push(v[0]) + v.skip(1) =~= acc + v);
        crate::fields::lemma_add_off_add(
            dec_file_entries(e2 + rest, v.skip(1).len() as nat, acc.push(v[0])),
            0,
            l1,
        );
    }
}

/// A file vector decodes back from the front of any buffer that starts
/// with its canonical encoding.
pub proof fn lemma_dec_file_vec_enc(v: Seq<FileV>, rest: Seq<u8>)
    requires
        fits_u32(v.len() as nat),
        forall|i: int| #![trigger v[i]] 0 <= i < v.len() ==> file_fits(v[i]),
    ensures
        dec_file_vec(enc_file_vec(v) + rest) == Ok::<(Seq<FileV>, int), Error>(
            (v, enc_file_vec(v).len() as int),
        ),
{
    let e0 = uleb_bytes(v.len() as nat);
    let e1 = enc_file_entries(v);
    let b = enc_file_vec(v) + rest;
    assert(b =~= e0 + (e1 + rest));
    crate::varint::lemma_uleb32_dec_prefix(v.len() as nat, e1 + rest);
    let l0 = e0.len() as int;
    assert(uleb32_dec(b) == Some((v.len() as u32, l0)));
    assert(b.skip(l0) =~= e1 + rest);
    lemma_dec_file_entries_enc(v, Seq::empty(), rest);
    assert(Seq::<FileV>::empty() + v =~= v);
}

/// File-map entries that continue a sorted accumulator decode back to the
/// accumulator followed by those entries.
#[verifier::rlimit(100)]
#[verifier::spinoff_prover]
pub proof fn lemma_dec_file_map_entries_enc(m: FileMapV, acc: FileMapV, rest: Seq<u8>)
    requires
        strictly_sorted(acc),
        strictly_sorted(m),
        crate::maps::keys_below(acc, m),
        forall|i: int| #![trigger m[i]] 0 <= i < m.len() ==> file_fits(m[i].1),
    ensures
        dec_file_map_entries(enc_file_map_entries(m) + rest, m.len() as nat, acc) == Ok::<
            (FileMapV, int),
            Error,
        >((acc + m, enc_file_map_entries(m).len() as int)),
    decreases m.len(),
{
    if m.len() == 0 {
        assert(acc + m =~= acc);
        assert(enc_file_map_entries(m) + rest =~= rest);
    } else {
        let e1 = uleb_bytes(m[0].0 as nat);
        let e2 = enc_file(m[0].1);
        let e3 = enc_file_map_entries(m.skip(1));
        let b = enc_file_map_entries(m) + rest;
        assert(b =~= e1 + (e2 + (e3 + rest)));
        crate::varint::lemma_uleb32_dec_prefix(m[0].0 as nat, e2 + (e3 + rest));
        let l1 = e1.len() as int;
        assert(uleb32_dec(b) == Some((m[0].0, l1)));
        assert(b.skip(l1) =~= e2 + (e3 + rest));
        lemma_dec_file_enc(m[0].1, e3 + rest);
        let l2 = e2.len() as int;
        assert(dec_file(b.skip(l1)) == Ok::<(FileV, int), Error>((m[0].1, l2)));
        assert(b.skip(l1 + l2) =~= e3 + rest);
        crate::maps::lemma_sorted_insert_append(acc, m[0].0, m[0].1);
        let acc2 = acc.push(m[0]);
        assert(strictly_sorted(acc2)) by {
            assert forall|i1: int, i2: int| 0 <= i1 < i2 < acc2.len() implies acc2[i1].0
                < acc2[i2].0 by {
                if i2 < acc.len() {
                } else {
                    assert(acc2[i2] == m[0]);
                }
            }
        }
        assert(crate::maps::keys_below(acc2, m.skip(1))) by {
            assert forall|i1: int, i2: int|
                0 <= i1 < acc2.len() && 0 <= i2 < m.skip(1).len() implies acc2[i1].0
                < m.skip(1)[i2].0 by {
                assert(m.skip(1)[i2] == m[i2 + 1]);
                if i1 < acc.len() {
                } else {
                    assert(acc2[i1] == m[0]);
                }
            }
        }
        assert forall|i: int| #![trigger m.skip(1)[i]] 0 <= i < m.skip(1).len() implies file_fits(
            m.skip(1)[i].1,
        ) by {
            assert(m.skip(1)[i] == m[i + 1]);
        }
        lemma_dec_file_map_entries_enc(m.skip(1), acc2, rest);
        assert(acc2 + m.skip(1) =~= acc + m);
        crate::fields::lemma_add_off_add(
            dec_file_map_entries(e3 + rest, m.skip(1).len() as nat, acc2),
            0,
            l1 + l2,
        );
    }
}

/// A file map decodes back from the front of any buffer that starts with
/// its canonical encoding.
pub proof fn lemma_dec_file_map_enc(m: FileMapV, rest: Seq<u8>)
    requires
        strictly_sorted(m),
        fits_u32(m.len() as nat),
        forall|i: int| #![trigger m[i]] 0 <= i < m.len() ==> file_fits(m[i].1),
    ensures
        dec_file_map(enc_file_map(m) + rest) == Ok::<(FileMapV, int), Error>(
            (m, enc_file_map(m).len() as int),
        ),
{
    let e0 = uleb_bytes(m.len() as nat);
    let e1 = enc_file_map_entries(m);
    let b = enc_file_map(m) + rest;
    assert(b =~= e0 + (e1 + rest));
    crate::varint::lemma_uleb32_dec_prefix(m.len() as nat, e1 + rest);
    let l0 = e0.len() as int;
    assert(uleb32_dec(b) == Some((m.len() as u32, l0)));
    assert(b.skip(l0) =~= e1 + rest);
    lemma_dec_file_map_entries_enc(m, Seq::empty(), rest);
    assert(Seq::<(u32, FileV)>::empty() + m =~= m);
}

/// Categories decode back to the accumulator followed by those categories.
pub proof fn lemma_dec_cat_entries_enc(v: Seq<Category>, acc: Seq<Category>, rest: Seq<u8>)
    ensures
        dec_cat_entries(enc_cat_entries(v) + rest, v.len() as nat, acc) == Ok::<
            (Seq<Category>, int),
            Error,
        >((acc + v, enc_cat_entries(v).len() as int)),
    decreases v.len(),
{
    if v.len() == 0 {
        assert(acc + v =~= acc);
        assert(enc_cat_entries(v) + rest =~= rest);
    } else {
        let e1 = uleb_bytes(category_val(v[0]) as nat);
        let e2 = enc_cat_entries(v.skip(1));
        let b = enc_cat_entries(v) + rest;
        assert(b =~= e1 + (e2 + rest));
        lemma_category_val_of(v[0]);
        crate::varint::lemma_uleb32_dec_prefix(category_val(v[0]) as nat, e2 + rest);
        let l1 = e1.len() as int;
        assert(uleb32_dec(b) == Some((category_val(v[0]), l1)));
        assert(b.skip(l1) =~= e2 + rest);
        lemma_dec_cat_entries_enc(v.skip(1), acc.push(v[0]), rest);
        assert(acc.push(v[0]) + v.skip(1) =~= acc + v);
        crate::fields::lemma_add_off_add(
            dec_cat_entries(e2 + rest, v.skip(1).len() as nat, acc.push(v[0])),
            0,
            l1,
        );
    }
}

/// A category vector decodes back from the front of any buffer that starts
/// with its canonical encoding.
pub proof fn lemma_dec_cat_vec_enc(v: Seq<Category>, rest: Seq<u8>)
    requires
        fits_u32(v.len() as nat),
    ensures
        dec_cat_vec(enc_cat_vec(v) + rest) == Ok::<(Seq<Category>, int), Error>(
            (v, enc_cat_vec(v).len() as int),
        ),
{
    let e0 = uleb_bytes(v.len() as nat);
    let e1 = enc_cat_entries(v);
    let b = enc_cat_vec(v) + rest;
    assert(b =~= e0 + (e1 + rest));
    crate::varint::lemma_uleb32_dec_prefix(v.len() as nat, e1 + rest);
    let l0 = e0.len() as int;
    assert(uleb32_dec(b) == Some((v.len() as u32, l0)));
    assert(b.skip(l0) =~= e1 + rest);
    lemma_dec_cat_entries_enc(v, Seq::empty(), rest);
    assert(Seq::<Category>::empty() + v =~= v);
}

/// Strictly increasing portals decode back to the accumulator followed by
/// those portals.
pub proof fn lemma_dec_portal_entries_enc(v: Seq<Portal>, min: nat, acc: Seq<Portal>, rest: Seq<u8>)
    requires
        portals_ordered(v),
        forall|i: int| #![trigger v[i]] 0 <= i < v.len() ==> min <= portal_val(v[i]),
    ensures
        dec_portal_entries(enc_portal_entries(v) + rest, v.len() as nat, min, acc) == Ok::<
            (Seq<Portal>, int),
            Error,
        >((acc + v, enc_portal_entries(v).len() as int)),
    decreases v.len(),
{
    if v.len() == 0 {
        assert(acc + v =~= acc);
        assert(enc_portal_entries(v) + rest =~= rest);
    } else {
        let e1 = uleb_bytes(portal_val(v[0]) as nat);
        let e2 = enc_portal_entries(v.skip(1));
        let b = enc_portal_entries(v) + rest;
        assert(b =~= e1 + (e2 + rest));
        lemma_portal_val_of(v[0]);
        crate::varint::lemma_uleb32_dec_prefix(portal_val(v[0]) as nat, e2 + rest);
        let l1 = e1.len() as int;
        assert(uleb32_dec(b) == Some((portal_val(v[0]), l1)));
        assert(b.skip(l1) =~= e2 + rest);
        assert(portals_ordered(v.skip(1))) by {
            assert forall|i1: int, i2: int|
                #![trigger v.skip(1)[i1], v.skip(1)[i2]]
                0 <= i1 < i2 < v.skip(1).len() implies portal_val(v.skip(1)[i1]) < portal_val(
                v.skip(1)[i2],
            ) by {
                assert(v.skip(1)[i1] == v[i1 + 1]);
                assert(v.skip(1)[i2] == v[i2 + 1]);
            }
        }
        assert forall|i: int| #![trigger v.skip(1)[i]] 0 <= i < v.skip(1).len() implies portal_val(
            v[0],
        ) as nat + 1 <= portal_val(v.skip(1)[i]) by {
            assert(v.skip(1)[i] == v[i + 1]);
        }
        lemma_dec_portal_entries_enc(v.skip(1), portal_val(v[0]) as nat + 1, acc.push(v[0]), rest);
        assert(acc.push(v[0]) + v.skip(1) =~= acc + v);
        crate::fields::lemma_add_off_add(
            dec_portal_entries(
                e2 + rest,
                v.skip(1).len() as nat,
                portal_val(v[0]) as nat + 1,
                acc.push(v[0]),
            ),
            0,
            l1,
        );
    }
}

/// Whatever portal list decodes successfully is strictly increasing.
pub proof fn lemma_dec_portal_entries_ordered(b: Seq<u8>, count: nat, min: nat, acc: Seq<Portal>)
    requires
        portals_ordered(acc),
        forall|i: int| #![trigger acc[i]] 0 <= i < acc.len() ==> portal_val(acc[i]) < min,
    ensures
        dec_portal_entries(b, count, min, acc) matches Ok(p) ==> portals_ordered(p.0) && p.0.len()
            == acc.len() + count,
    decreases count,
{
    if count > 0 {
        match uleb32_dec(b) {
            None => {},
            Some((v, i)) => {
                if v as nat >= min && portal_of(v) is Some {
                    let p = portal_of(v)->0;
                    assert(portal_val(p) == v);
                    let acc2 = acc.push(p);
                    assert(portals_ordered(acc2)) by {
                        assert forall|i1: int, i2: int|
                            #![trigger acc2[i1], acc2[i2]]
                            0 <= i1 < i2 < acc2.len() implies portal_val(acc2[i1]) < portal_val(
                            acc2[i2],
                        ) by {
                            if i2 < acc.len() {
                                assert(acc2[i1] == acc[i1]);
                                assert(acc2[i2] == acc[i2]);
                            } else {
                                assert(acc2[i2] == p);
                                assert(acc2[i1] == acc[i1]);
                            }
                        }
                    }
                    assert forall|i1: int| #![trigger acc2[i1]] 0 <= i1 < acc2.len() implies
                        portal_val(acc2[i1]) < v as nat + 1 by {
                        if i1 < acc.len() {
                            assert(acc2[i1] == acc[i1]);
                        } else {
                            assert(acc2[i1] == p);
                        }
                    }
                    lemma_dec_portal_entries_ordered(b.skip(i), (count - 1) as nat, v as nat + 1, acc2);
                }
            },
        }
    }
}

/// A successful portal-list decode never consumes a negative number of
/// bytes.
pub proof fn lemma_dec_portal_entries_pos(b: Seq<u8>, count: nat, min: nat, acc: Seq<Portal>)
    ensures
        dec_portal_entries(b, count, min, acc) matches Ok(p) ==> 0 <= p.1 <= b.len(),
    decreases count,
{
    if count > 0 && dec_portal_entries(b, count, min, acc) is Ok {
        crate::varint::lemma_uleb32_from_pos(b, 0, 0, 0);
        let p1 = uleb32_dec(b)->0;
        lemma_dec_portal_entries_pos(
            b.skip(p1.1),
            (count - 1) as nat,
            p1.0 as nat + 1,
            acc.push(portal_of(p1.0)->0),
        );
    }
}

/// Decoding a portal list reads only the bytes it consumes: on a truncated
/// copy of the buffer the decode returns the same portals when their bytes
/// survived the cut, and fails when they did not.
pub proof fn lemma_dec_portal_entries_prefix(
    b: Seq<u8>,
    cut: int,
    count: nat,
    min: nat,
    acc: Seq<Portal>,
)
    requires
        0 <= cut <= b.len(),
    ensures
        dec_portal_entries(b, count, min, acc) matches Ok(p) ==> if p.1 <= cut {
            dec_portal_entries(b.take(cut), count, min, acc) == Ok::<(Seq<Portal>, int), Error>(p)
        } else {
            dec_portal_entries(b.take(cut), count, min, acc) is Err
        },
    decreases count,
{
    if count > 0 && dec_portal_entries(b, count, min, acc) is Ok {
        let t = b.take(cut);
        crate::varint::lemma_uleb32_from_prefix(b, cut, 0, 0, 0);
        crate::varint::lemma_uleb32_from_pos(b, 0, 0, 0);
        let p1 = uleb32_dec(b)->0;
        let acc2 = acc.push(portal_of(p1.0)->0);
        lemma_dec_portal_entries_pos(b.skip(p1.1), (count - 1) as nat, p1.0 as nat + 1, acc2);
        if p1.1 <= cut {
            assert(uleb32_dec(t) == Some(p1));
            assert(t.skip(p1.1) =~= b.skip(p1.1).take(cut - p1.1));
            lemma_dec_portal_entries_prefix(
                b.skip(p1.1),
                cut - p1.1,
                (count - 1) as nat,
                p1.0 as nat + 1,
                acc2,
            );
        } else {
            assert(uleb32_dec(t) is None);
        }
    }
}

/// Fail-fast under truncation for the daku section body: cutting inside
/// the portal list makes the whole decode fail; cutting in the Nucleide
/// region decodes to the full portal list and exactly the complete
/// subsections before the cut when the cut falls on a subsection boundary,
/// and fails anywhere else.
pub proof fn lemma_daku_truncation(d: DakuV, cut: int)
    requires
        daku_wf(d),
        nucleide_ordered(d.1),
        nucleide_wf(d.1),
        0 <= cut <= enc_daku(d).len(),
    ensures
        ({
            let head = uleb_bytes(d.0.len() as nat) + enc_portal_entries(d.0);
            &&& (cut < head.len() ==> dec_daku(enc_daku(d).take(cut)) is Err)
            &&& (cut >= head.len() ==> {
                &&& forall|k: int|
                    0 <= k <= d.1.len() && cut - head.len() == enc_nucleide(
                        #[trigger] d.1.take(k),
                    ).len() ==> dec_daku(enc_daku(d).take(cut)) == Ok::<DakuV, Error>(
                        (d.0, d.1.take(k)),
                    )
                &&& (!nucleide_boundary(d.1, cut - head.len() as int) ==> dec_daku(
                    enc_daku(d).take(cut),
                ) is Err)
            })
        }),
{
    let e0 = uleb_bytes(d.0.len() as nat);
    let e1 = enc_portal_entries(d.0);
    let e2 = enc_nucleide(d.1);
    let b = enc_daku(d);
    let t = b.take(cut);
    let l0 = e0.len() as int;
    let hl = l0 + e1.len() as int;
    assert(b =~= e0 + (e1 + e2));
    crate::varint::lemma_uleb32_dec_prefix(d.0.len() as nat, e1 + e2);
    assert(uleb32_dec(b) == Some((d.0.len() as u32, l0)));
    crate::varint::lemma_uleb32_from_prefix(b, cut, 0, 0, 0);
    lemma_dec_portal_entries_enc(d.0, 0, Seq::empty(), e2);
    assert(Seq::<Portal>::empty() + d.0 =~= d.0);
    assert(b.skip(l0) =~= e1 + e2);
    assert(dec_portal_entries(b.skip(l0), d.0.len() as nat, 0, Seq::empty()) == Ok::<
        (Seq<Portal>, int),
        Error,
    >((d.0, e1.len() as int)));
    if cut < l0 {
        assert(uleb32_dec(t) is None);
    } else {
        assert(uleb32_dec(t) == Some((d.0.len() as u32, l0)));
        assert(t.skip(l0) =~= b.skip(l0).take(cut - l0));
        lemma_dec_portal_entries_prefix(
            b.skip(l0),
            cut - l0,
            d.0.len() as nat,
            0,
            Seq::empty(),
        );
        if cut < hl {
            assert(dec_portal_entries(t.skip(l0), d.0.len() as nat, 0, Seq::empty()) is Err);
        } else {
            assert(dec_portal_entries(t.skip(l0), d.0.len() as nat, 0, Seq::empty()) == Ok::<
                (Seq<Portal>, int),
                Error,
            >((d.0, e1.len() as int)));
            assert(t.skip(hl) =~= e2.take(cut - hl));
            lemma_nucleide_truncation(d.1, cut - hl);
            assert forall|k: int|
                0 <= k <= d.1.len() && cut - hl == enc_nucleide(#[trigger] d.1.take(k)).len()
                    implies dec_daku(t) == Ok::<DakuV, Error>((d.0, d.1.take(k))) by {
                assert(dec_nucleide(e2.take(cut - hl), 0) == Ok::<Seq<NucleideV>, Error>(
                    d.1.take(k),
                ));
            }
            if !nucleide_boundary(d.1, cut - hl) {
                assert(dec_nucleide(e2.take(cut - hl), 0) is Err);
            }
        }
    }
}

/// A well-formed Nucleide subsection's payload decodes back to it.
pub proof fn lemma_dec_nucleide_payload_enc(n: NucleideV)
    requires
        nucleide_v_wf(n),
    ensures
        dec_nucleide_payload(nucleide_disc(n), enc_nucleide_payload(n)) == Ok::<NucleideV, Error>(
            n,
        ),
{
    match n {
        NucleideV::LocalizedNames(m) => {
            assert(enc_name_map(m) + Seq::<u8>::empty() =~= enc_name_map(m));
            lemma_dec_name_map_enc(m, Seq::empty());
        },
        NucleideV::LocalizedDescriptions(m) => {
            assert(enc_name_map(m) + Seq::<u8>::empty() =~= enc_name_map(m));
            lemma_dec_name_map_enc(m, Seq::empty());
        },
        NucleideV::ThemedIcons(v) => {
            assert(enc_file_vec(v) + Seq::<u8>::empty() =~= enc_file_vec(v));
            lemma_dec_file_vec_enc(v, Seq::empty());
        },
        NucleideV::LocalizedAssets(m) => {
            assert(enc_file_map(m) + Seq::<u8>::empty() =~= enc_file_map(m));
            lemma_dec_file_map_enc(m, Seq::empty());
        },
        NucleideV::Tags(v) => {
            assert(enc_name_vec(v) + Seq::<u8>::empty() =~= enc_name_vec(v));
            lemma_dec_name_vec_enc(v, Seq::empty());
        },
        NucleideV::Categories(v) => {
            assert(enc_cat_vec(v) + Seq::<u8>::empty() =~= enc_cat_vec(v));
            lemma_dec_cat_vec_enc(v, Seq::empty());
        },
        NucleideV::Developer(s) => {
            assert(enc_name(s) + Seq::<u8>::empty() =~= enc_name(s));
            lemma_dec_name_enc(s, Seq::empty());
        },
    }
}

/// A successful Nucleide payload parse pins the discriminant.
pub proof fn lemma_dec_nucleide_payload_disc(id: u8, p: Seq<u8>)
    ensures
        dec_nucleide_payload(id, p) matches Ok(v) ==> nucleide_disc(v) == id,
{
}

/// Round trip for the Nucleide extension body.
pub proof fn lemma_nucleide_round_trip(ns: Seq<NucleideV>)
    requires
        nucleide_wf(ns),
        nucleide_ordered(ns),
    ensures
        dec_nucleide(enc_nucleide(ns), 0) == Ok::<Seq<NucleideV>, Error>(ns),
{
    let d = |n: NucleideV| nucleide_disc(n);
    let ep = |n: NucleideV| enc_nucleide_payload(n);
    let pd = |id: u8, p: Seq<u8>| dec_nucleide_payload(id, p);
    assert forall|i: int| #![trigger ep(ns[i])] 0 <= i < ns.len() implies pd(d(ns[i]), ep(ns[i]))
        == Ok::<NucleideV, Error>(ns[i]) && fits_u32(ep(ns[i]).len() as nat) by {
        lemma_dec_nucleide_payload_enc(ns[i]);
    }
    crate::stream::lemma_stream_round_trip(ns, 0, d, ep, pd);
}

/// Monotonicity for the Nucleide extension body: whatever decodes
/// successfully has strictly increasing discriminants.
pub proof fn lemma_nucleide_monotonic(b: Seq<u8>)
    ensures
        dec_nucleide(b, 0) matches Ok(ns) ==> nucleide_ordered(ns),
{
    let d = |n: NucleideV| nucleide_disc(n);
    let pd = |id: u8, p: Seq<u8>| dec_nucleide_payload(id, p);
    assert forall|id: u8, p: Seq<u8>|
        ((#[trigger] pd(id, p)) matches Ok(v) ==> d(v) == id) by {
        lemma_dec_nucleide_payload_disc(id, p);
    }
    crate::stream::lemma_stream_monotonic(b, 0, d, pd);
}

/// `cut` falls on a subsection boundary of the encoded Nucleide extension.
pub open spec fn nucleide_boundary(ns: Seq<NucleideV>, cut: int) -> bool {
    crate::stream::stream_boundary(
        ns,
        |n: NucleideV| nucleide_disc(n),
        |n: NucleideV| enc_nucleide_payload(n),
        cut,
    )
}

/// Fail-fast under truncation for the Nucleide extension body: cutting the
/// canonical encoding at a subsection boundary decodes to exactly the
/// complete subsections before the cut; cutting anywhere else makes the
/// whole decode fail.
pub proof fn lemma_nucleide_truncation(ns: Seq<NucleideV>, cut: int)
    requires
        nucleide_wf(ns),
        nucleide_ordered(ns),
        0 <= cut <= enc_nucleide(ns).len(),
    ensures
        forall|k: int|
            0 <= k <= ns.len() && cut == enc_nucleide(#[trigger] ns.take(k)).len()
                ==> dec_nucleide(enc_nucleide(ns).take(cut), 0) == Ok::<Seq<NucleideV>, Error>(
                ns.take(k),
            ),
        !nucleide_boundary(ns, cut) ==> dec_nucleide(enc_nucleide(ns).take(cut), 0) is Err,
{
    let d = |n: NucleideV| nucleide_disc(n);
    let ep = |n: NucleideV| enc_nucleide_payload(n);
    let pd = |id: u8, p: Seq<u8>| dec_nucleide_payload(id, p);
    assert forall|i: int| #![trigger ep(ns[i])] 0 <= i < ns.len() implies pd(d(ns[i]), ep(ns[i]))
        == Ok::<NucleideV, Error>(ns[i]) && fits_u32(ep(ns[i]).len() as nat) by {
        lemma_dec_nucleide_payload_enc(ns[i]);
    }
    crate::stream::lemma_stream_truncation(ns, 0, d, ep, pd, cut);
}

/// Round trip for the daku section body: decoding the canonical encoding
/// of any well-formed daku value yields that value.
pub proof fn lemma_daku_round_trip(d: DakuV)
    requires
        daku_wf(d),
        nucleide_wf(d.1),
        nucleide_ordered(d.1),
    ensures
        dec_daku(enc_daku(d)) == Ok::<DakuV, Error>(d),
{
    let e0 = uleb_bytes(d.0.len() as nat);
    let e1 = enc_portal_entries(d.0);
    let e2 = enc_nucleide(d.1);
    let b = enc_daku(d);
    assert(b =~= e0 + (e1 + e2));
    crate::varint::lemma_uleb32_dec_prefix(d.0.len() as nat, e1 + e2);
    let l0 = e0.len() as int;
    assert(uleb32_dec(b) == Some((d.0.len() as u32, l0)));
    assert(b.skip(l0) =~= e1 + e2);
    lemma_dec_portal_entries_enc(d.0, 0, Seq::empty(), e2);
    assert(Seq::<Portal>::empty() + d.0 =~= d.0);
    let l1 = e1.len() as int;
    assert(b.skip(l0 + l1) =~= e2);
    lemma_nucleide_round_trip(d.1);
    assert((d.0, d.1) == d);
}

} // verus!
