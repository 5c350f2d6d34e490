use vstd::prelude::*;
use vstd::utf8::encode_utf8;

use crate::abi_checking::{Report, check_layout_compatibility, report_describes};
use crate::type_layout::{LayoutGraph, compatible};
use crate::version::{ParseVersionError, VersionNumber, VersionStrings, parse_version};

verus! {

/// Length of the magic byte sequence that opens every module header.
pub const MAGIC_LEN: usize = 32;

/// The magic byte sequence of this framework: `abi stable library for Rust`
/// padded with spaces to 32 bytes.
pub open spec fn spec_magic() -> Seq<u8> {
    seq![
        97u8, 98, 105, 32, 115, 116, 97, 98, 108, 101, 32, 108, 105, 98, 114, 97,
        114, 121, 32, 102, 111, 114, 32, 82, 117, 115, 116, 32, 32, 32, 32, 32,
    ]
}

/// Major version of the binary protocol of this framework.
pub const ABI_MAJOR: u32 = 0;

/// Minor version of the binary protocol of this framework.
pub const ABI_MINOR: u32 = 11;

/// Identifies the revision of the framework that a compiled module was built
/// with. It is read before anything else in a module, and nothing past it is
/// trusted unless it is valid.
#[derive(Debug, Clone, Copy)]
pub struct AbiHeader {
    /// A magic byte sequence identifying this framework.
    pub magic_string: [u8; 32],
    /// The major version of the framework's binary protocol.
    pub abi_major: u32,
    /// The minor version of the framework's binary protocol.
    pub abi_minor: u32,
}

/// Whether a module built with header `lib` can be used by a host that
/// expects header `expected`: the magic bytes and the major version agree,
/// and under major version 0 the module's minor version is not older.
pub open spec fn headers_compatible(lib: AbiHeader, expected: AbiHeader) -> bool {
    &&& lib.magic_string@ == expected.magic_string@
    &&& lib.abi_major == expected.abi_major
    &&& (lib.abi_major != 0 || lib.abi_minor >= expected.abi_minor)
}

/// `h` is the header of this revision of the framework.
pub open spec fn is_framework_header(h: AbiHeader) -> bool {
    h.magic_string@ == spec_magic() && h.abi_major == ABI_MAJOR && h.abi_minor == ABI_MINOR
}

/// A module with header `h` can be used by this revision of the framework.
pub open spec fn header_valid(h: AbiHeader) -> bool {
    &&& h.magic_string@ == spec_magic()
    &&& h.abi_major == ABI_MAJOR
    &&& (ABI_MAJOR != 0 || h.abi_minor >= ABI_MINOR)
}

impl AbiHeader {
    /// Builds a header from its parts.
    pub fn new(magic_string: [u8; 32], abi_major: u32, abi_minor: u32) -> (r: AbiHeader)
        ensures
            r.magic_string@ == magic_string@,
            r.abi_major == abi_major,
            r.abi_minor == abi_minor,
    {
        AbiHeader { magic_string, abi_major, abi_minor }
    }

    /// The header stored in modules built with this revision of the framework.
    pub fn value() -> (r: AbiHeader)
        ensures
            is_framework_header(r),
    {
        let magic_string: [u8; 32] = [
            97u8, 98, 105, 32, 115, 116, 97, 98, 108, 101, 32, 108, 105, 98, 114, 97,
            114, 121, 32, 102, 111, 114, 32, 82, 117, 115, 116, 32, 32, 32, 32, 32,
        ];
        assert(magic_string@ =~= spec_magic());
        AbiHeader { magic_string, abi_major: ABI_MAJOR, abi_minor: ABI_MINOR }
    }

    /// Checks whether a module built with this header can be used by a host
    /// that expects `other`.
    pub fn is_compatible(&self, other: &Self) -> (r: bool)
        ensures
            r == headers_compatible(*self, *other),
    {
        let mut i: usize = 0;
        while i < MAGIC_LEN
            invariant
                i <= MAGIC_LEN,
                self.magic_string@.subrange(0, i as int) == other.magic_string@.subrange(0, i as int),
            decreases MAGIC_LEN - i,
        {
            if self.magic_string[i] != other.magic_string[i] {
                assert(self.magic_string@[i as int] != other.magic_string@[i as int]);
                return false;
            }
            assert(self.magic_string@.subrange(0, i + 1) =~= self.magic_string@.subrange(0, i as int).push(self.magic_string@[i as int]));
            assert(other.magic_string@.subrange(0, i + 1) =~= other.magic_string@.subrange(0, i as int).push(other.magic_string@[i as int]));
            i = i + 1;
        }
        assert(self.magic_string@ =~= self.magic_string@.subrange(0, 32));
        assert(other.magic_string@ =~= other.magic_string@.subrange(0, 32));
        self.abi_major == other.abi_major && (self.abi_major != 0 || self.abi_minor >= other.abi_minor)
    }

    /// Checks whether the framework revision of this header is one that this
    /// build of the framework can use.
    pub fn is_valid(&self) -> (r: bool)
        ensures
            r == header_valid(*self),
    {
        let value = AbiHeader::value();
        self.is_compatible(&value)
    }
}

/// The layout of a module's root type: a graph and the index of the root in it.
#[derive(Debug)]
pub struct RootLayout {
    pub graph: LayoutGraph,
    pub root: usize,
}

impl RootLayout {
    pub open spec fn wf(&self) -> bool {
        self.graph.wf() && self.root < self.graph.nodes@.len()
    }
}

/// The constants that a loaded module carries about its root module.
#[derive(Debug)]
pub struct RootModuleConsts {
    /// The name of the library.
    pub name: String,
    pub version_strings: VersionStrings,
    /// `None` when the module's author opted out of layout checking: the
    /// module is then trusted as it is.
    pub layout: Option<RootLayout>,
}

/// What the loading side was built against: the library's name, its
/// version, and the layout it expects of the root module.
#[derive(Debug)]
pub struct ExpectedRootModule {
    pub name: String,
    pub version_strings: VersionStrings,
    pub layout: RootLayout,
}

/// Why a module could not be loaded.
#[derive(Debug)]
pub enum LibraryError {
    /// The module was built with an incompatible revision of the framework.
    InvalidAbiHeader(AbiHeader),
    /// A version string is not `major.minor.patch`.
    ParseVersionError(ParseVersionError),
    /// The library's version is not one the loading side can use.
    IncompatibleVersionNumber {
        library_name: String,
        expected_version: VersionNumber,
        actual_version: VersionNumber,
    },
    /// The layout of the root module is not the expected one.
    AbiInstability(Report),
}

/// A library of version `actual` can be used where version `expected` was
/// built against: the major versions agree, and under major version 0 the
/// library's minor version is not older.
pub open spec fn versions_compatible(expected: VersionNumber, actual: VersionNumber) -> bool {
    expected.major == actual.major && (expected.major != 0 || expected.minor <= actual.minor)
}

/// Both version strings parse, and the versions are compatible.
pub open spec fn version_accepted(expected: VersionStrings, actual: VersionStrings) -> bool {
    &&& parse_version(encode_utf8(expected.version@)) matches Some(x)
    &&& parse_version(encode_utf8(actual.version@)) matches Some(y)
    &&& versions_compatible(x, y)
}

/// The module's layout is absent (not checked), or compatible with the
/// expected one.
pub open spec fn layout_accepted(expected: RootLayout, found: Option<RootLayout>) -> bool {
    match found {
        None => true,
        Some(l) => compatible(expected.graph, l.graph, expected.root as int, l.root as int),
    }
}

/// The error that a failed version check returns: the string that does not
/// parse (the expected one first), or else the library's name with both
/// versions.
pub open spec fn version_error(expected: ExpectedRootModule, actual: VersionStrings, err: LibraryError) -> bool {
    match parse_version(encode_utf8(expected.version_strings.version@)) {
        None => err matches LibraryError::ParseVersionError(p) && p.version@ == expected.version_strings.version@,
        Some(x) => match parse_version(encode_utf8(actual.version@)) {
            None => err matches LibraryError::ParseVersionError(p) && p.version@ == actual.version@,
            Some(y) => err matches LibraryError::IncompatibleVersionNumber {
                library_name,
                expected_version,
                actual_version,
            } && library_name@ == expected.name@ && expected_version == x && actual_version == y,
        },
    }
}

/// The error that a failed layout check returns: the report of the
/// incompatibility between the expected layout and the module's.
pub open spec fn layout_error(expected: RootLayout, found: Option<RootLayout>, err: LibraryError) -> bool {
    &&& err matches LibraryError::AbiInstability(rep)
    &&& found matches Some(l)
    &&& report_describes(expected.graph, l.graph, expected.root as int, l.root as int, err->AbiInstability_0)
}

/// Checks the module's version against the expected one.
pub fn check_version(expected: &ExpectedRootModule, actual: &VersionStrings) -> (r: Result<(), LibraryError>)
    ensures
        r is Ok <==> version_accepted(expected.version_strings, *actual),
        r matches Err(err) ==> version_error(*expected, *actual, err),
{
    let expected_version = match VersionNumber::new(&expected.version_strings) {
        Ok(v) => v,
        Err(e) => return Err(LibraryError::ParseVersionError(e)),
    };
    let actual_version = match VersionNumber::new(actual) {
        Ok(v) => v,
        Err(e) => return Err(LibraryError::ParseVersionError(e)),
    };
    if expected_version.major != actual_version.major || (expected_version.major == 0
        && expected_version.minor > actual_version.minor) {
        return Err(
            LibraryError::IncompatibleVersionNumber {
                library_name: expected.name.clone(),
                expected_version,
                actual_version,
            },
        );
    }
    Ok(())
}

/// Checks the module's root layout, when it carries one, against the
/// expected one.
pub fn check_root_layout(expected: &RootLayout, found: &Option<RootLayout>) -> (r: Result<(), LibraryError>)
    requires
        expected.wf(),
        found matches Some(l) ==> l.wf(),
        found matches Some(l) ==> expected.graph.nodes@.len() * l.graph.nodes@.len() <= usize::MAX,
    ensures
        r is Ok <==> layout_accepted(*expected, *found),
        r matches Err(err) ==> layout_error(*expected, *found, err),
{
    match found {
        None => Ok(()),
        Some(l) => match check_layout_compatibility(&expected.graph, expected.root, &l.graph, l.root) {
            Ok(()) => Ok(()),
            Err(rep) => Err(LibraryError::AbiInstability(rep)),
        },
    }
}

/// The error of a failed check of version and layout: the version's error
/// when the version is not accepted, else the layout's.
pub open spec fn handshake_error(expected: ExpectedRootModule, found: RootModuleConsts, err: LibraryError) -> bool {
    if !version_accepted(expected.version_strings, found.version_strings) {
        version_error(expected, found.version_strings, err)
    } else {
        layout_error(expected.layout, found.layout, err)
    }
}

/// The layouts can be compared within the machine's address space.
pub open spec fn layouts_fit(expected: RootLayout, found: Option<RootLayout>) -> bool {
    &&& expected.wf()
    &&& found matches Some(l) ==> l.wf()
    &&& found matches Some(l) ==> expected.graph.nodes@.len() * l.graph.nodes@.len() <= usize::MAX
}

/// The header of a loaded module, with the constants and the root module it
/// exposes once checked. `M` is the root module: a table of entry points.
#[derive(Debug)]
pub struct LibHeader<M> {
    header: AbiHeader,
    root_mod_consts: RootModuleConsts,
    /// The root module once it has been handed out; it is set at most once.
    module: Option<M>,
    /// The root module that the first successful load hands out.
    constructor: M,
}

/// What a `LibHeader` holds, as contracts speak of it.
pub struct LibHeaderState<M> {
    pub header: AbiHeader,
    pub root_mod_consts: RootModuleConsts,
    /// The root module once it has been handed out.
    pub module: Option<M>,
    /// The root module that the first successful load hands out.
    pub constructor: M,
}

impl<M> View for LibHeader<M> {
    type V = LibHeaderState<M>;

    closed spec fn view(&self) -> LibHeaderState<M> {
        LibHeaderState {
            header: self.header,
            root_mod_consts: self.root_mod_consts,
            module: self.module,
            constructor: self.constructor,
        }
    }
}

impl<M: Copy> LibHeader<M> {
    /// The header of a module as it was loaded, whose root module is handed
    /// out on the first successful load.
    pub fn new(header: AbiHeader, root_mod_consts: RootModuleConsts, constructor: M) -> (r: Self)
        ensures
            r@.header == header,
            r@.root_mod_consts == root_mod_consts,
            r@.module is None,
            r@.constructor == constructor,
    {
        LibHeader { header, root_mod_consts, module: None, constructor }
    }

    /// The framework header of the module.
    pub fn header(&self) -> (r: AbiHeader)
        ensures
            r == self@.header,
    {
        self.header
    }

    /// A header whose root module is handed out on the first successful load.
    pub fn from_constructor(constructor: M, root_mod_consts: RootModuleConsts) -> (r: Self)
        ensures
            is_framework_header(r@.header),
            r@.root_mod_consts == root_mod_consts,
            r@.module is None,
            r@.constructor == constructor,
    {
        LibHeader { header: AbiHeader::value(), root_mod_consts, module: None, constructor }
    }

    /// A header whose root module is already there.
    pub fn from_module(value: M, root_mod_consts: RootModuleConsts) -> (r: Self)
        ensures
            is_framework_header(r@.header),
            r@.root_mod_consts == root_mod_consts,
            r@.module == Some(value),
            r@.constructor == value,
    {
        LibHeader { header: AbiHeader::value(), root_mod_consts, module: Some(value), constructor: value }
    }

    /// The root module, once a load has handed it out.
    pub fn module(&self) -> (r: Option<M>)
        ensures
            r == self@.module,
    {
        self.module
    }

    /// All the constants of the root module.
    pub fn root_mod_consts(&self) -> (r: &RootModuleConsts)
        ensures
            *r == self@.root_mod_consts,
    {
        &self.root_mod_consts
    }

    /// The version of the library the module is loaded from.
    pub fn version_strings(&self) -> (r: VersionStrings)
        ensures
            r.version@ == self@.root_mod_consts.version_strings.version@,
    {
        VersionStrings { version: self.root_mod_consts.version_strings.version.clone() }
    }

    /// The layout of the root module; `None` when the module opted out of
    /// layout checking.
    pub fn layout(&self) -> (r: Option<&RootLayout>)
        ensures
            r is Some == self@.root_mod_consts.layout is Some,
            r matches Some(l) ==> self@.root_mod_consts.layout == Some(*l),
    {
        self.root_mod_consts.layout.as_ref()
    }

    /// Hands out the root module, setting it on first use.
    fn init_module(&mut self) -> (r: M)
        ensures
            r == match old(self)@.module {
                Some(m) => m,
                None => old(self)@.constructor,
            },
            final(self)@.module == Some(r),
            final(self)@.header == old(self)@.header,
            final(self)@.root_mod_consts == old(self)@.root_mod_consts,
            final(self)@.constructor == old(self)@.constructor,
    {
        match self.module {
            Some(m) => m,
            None => {
                let m = self.constructor;
                self.module = Some(m);
                m
            },
        }
    }

    /// Checks that the layout of the root module, when the module carries
    /// one, is compatible with `expected`, and returns the root module. The
    /// root module is set on the first success; a failure changes nothing.
    pub fn check_layout(&mut self, expected: &RootLayout) -> (r: Result<M, LibraryError>)
        requires
            layouts_fit(*expected, old(self)@.root_mod_consts.layout),
        ensures
            r is Ok <==> layout_accepted(*expected, old(self)@.root_mod_consts.layout),
            r matches Ok(m) ==> m == match old(self)@.module {
                Some(x) => x,
                None => old(self)@.constructor,
            } && final(self)@.module == Some(m),
            r matches Err(e) ==> layout_error(*expected, old(self)@.root_mod_consts.layout, e),
            r is Err ==> final(self)@ == old(self)@,
            final(self)@.header == old(self)@.header,
            final(self)@.root_mod_consts == old(self)@.root_mod_consts,
            final(self)@.constructor == old(self)@.constructor,
    {
        check_root_layout(expected, &self.root_mod_consts.layout)?;
        Ok(self.init_module())
    }

    /// Returns the root module without looking at its layout; the caller
    /// vouches that it is the expected one.
    pub fn unchecked_layout(&mut self) -> (r: M)
        ensures
            r == match old(self)@.module {
                Some(x) => x,
                None => old(self)@.constructor,
            },
            final(self)@.module == Some(r),
            final(self)@.header == old(self)@.header,
            final(self)@.root_mod_consts == old(self)@.root_mod_consts,
            final(self)@.constructor == old(self)@.constructor,
    {
        self.init_module()
    }

    /// Checks that the library's version is compatible with `expected`, and
    /// returns the root module without looking at its layout; the caller
    /// vouches that it is the expected one.
    pub fn init_root_module_with_unchecked_layout(&mut self, expected: &ExpectedRootModule) -> (r: Result<M, LibraryError>)
        ensures
            r is Ok <==> version_accepted(expected.version_strings, old(self)@.root_mod_consts.version_strings),
            r matches Ok(m) ==> m == match old(self)@.module {
                Some(x) => x,
                None => old(self)@.constructor,
            } && final(self)@.module == Some(m),
            r matches Err(e) ==> version_error(*expected, old(self)@.root_mod_consts.version_strings, e),
            r is Err ==> final(self)@ == old(self)@,
    {
        check_version(expected, &self.root_mod_consts.version_strings)?;
        Ok(self.unchecked_layout())
    }

    /// Checks that the library's version and the layout of its root module
    /// are compatible with `expected`, and returns the root module. The root
    /// module is set on the first success and stays the same afterwards; a
    /// failure changes nothing.
    pub fn init_root_module(&mut self, expected: &ExpectedRootModule) -> (r: Result<M, LibraryError>)
        requires
            layouts_fit(expected.layout, old(self)@.root_mod_consts.layout),
        ensures
            r is Ok <==> version_accepted(expected.version_strings, old(self)@.root_mod_consts.version_strings)
                && layout_accepted(expected.layout, old(self)@.root_mod_consts.layout),
            r matches Ok(m) ==> m == match old(self)@.module {
                Some(x) => x,
                None => old(self)@.constructor,
            } && final(self)@.module == Some(m),
            r is Err ==> final(self)@ == old(self)@,
            r matches Err(e) ==> handshake_error(*expected, old(self)@.root_mod_consts, e),
    {
        check_version(expected, &self.root_mod_consts.version_strings)?;
        self.check_layout(&expected.layout)
    }

    /// The whole handshake: the framework header first, and nothing else
    /// when it is invalid; then the version and the layout, as
    /// `init_root_module` does.
    pub fn load_root_module(&mut self, expected: &ExpectedRootModule) -> (r: Result<M, LibraryError>)
        requires
            header_valid(old(self)@.header) ==> layouts_fit(expected.layout, old(self)@.root_mod_consts.layout),
        ensures
            !header_valid(old(self)@.header) ==> r == Err::<M, LibraryError>(
                LibraryError::InvalidAbiHeader(old(self)@.header),
            ) && final(self)@ == old(self)@,
            header_valid(old(self)@.header) ==> (r matches Err(e) ==> handshake_error(*expected, old(self)@.root_mod_consts, e)),
            r is Ok <==> header_valid(old(self)@.header)
                && version_accepted(expected.version_strings, old(self)@.root_mod_consts.version_strings)
                && layout_accepted(expected.layout, old(self)@.root_mod_consts.layout),
            r matches Ok(m) ==> m == match old(self)@.module {
                Some(x) => x,
                None => old(self)@.constructor,
            } && final(self)@.module == Some(m),
            r is Err ==> final(self)@ == old(self)@,
    {
        if !self.header.is_valid() {
            return Err(LibraryError::InvalidAbiHeader(self.header));
        }
        self.init_root_module(expected)
    }
}

} // verus!
