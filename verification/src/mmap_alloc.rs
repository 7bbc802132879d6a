//! Configuration of the page-mapping layer: the builder for a mapping
//! allocator, its permission bits, and the pure decisions its allocation
//! path makes. The system calls themselves (mapping, unmapping,
//! committing) belong to the virtual-memory layer outside this crate;
//! what is here is everything that can be decided from plain values:
//! which permission word to request, how sizes round to pages, and how a
//! null mapping is retried.

use vstd::prelude::*;

verus! {

/// No access, as the POSIX protection bits encode it.
pub const PROT_NONE: i32 = 0;

/// Read access.
pub const PROT_READ: i32 = 1;

/// Write access.
pub const PROT_WRITE: i32 = 2;

/// Execute access.
pub const PROT_EXEC: i32 = 4;

/// Read and write access.
pub const PROT_READ_WRITE: i32 = 3;

/// Read and execute access.
pub const PROT_READ_EXEC: i32 = 5;

/// Write and execute access.
pub const PROT_WRITE_EXEC: i32 = 6;

/// Full access.
pub const PROT_READ_WRITE_EXEC: i32 = 7;

/// The protection word for a combination of permissions: the sum of the
/// bits requested.
pub open spec fn spec_perm(read: bool, write: bool, exec: bool) -> int {
    (if read {
        1int
    } else {
        0int
    }) + (if write {
        2int
    } else {
        0int
    }) + (if exec {
        4int
    } else {
        0int
    })
}

/// Map a combination of permissions to its protection word.
pub fn get_perm(read: bool, write: bool, exec: bool) -> (r: i32)
    ensures
        r == spec_perm(read, write, exec),
{
    match (read, write, exec) {
        (false, false, false) => PROT_NONE,
        (true, false, false) => PROT_READ,
        (false, true, false) => PROT_WRITE,
        (false, false, true) => PROT_EXEC,
        (true, true, false) => PROT_READ_WRITE,
        (true, false, true) => PROT_READ_EXEC,
        (false, true, true) => PROT_WRITE_EXEC,
        (true, true, true) => PROT_READ_WRITE_EXEC,
    }
}

/// The least multiple of `unit` that is at least `size`.
pub open spec fn spec_next_multiple(size: int, unit: int) -> int {
    ((size + unit - 1) / unit) * unit
}

/// Round `size` up to a whole number of `unit`s.
pub fn next_multiple(size: usize, unit: usize) -> (r: usize)
    requires
        1 <= unit,
        size <= usize::MAX - unit,
    ensures
        r == spec_next_multiple(size as int, unit as int),
        size <= r < size + unit,
        r as int % unit as int == 0,
{
    let q = (size + (unit - 1)) / unit;
    proof {
        let s = size as int;
        let u = unit as int;
        assert(s <= (s + u - 1) / u * u < s + u && ((s + u - 1) / u * u) % u == 0) by (
        nonlinear_arith)
            requires
                1 <= u,
                0 <= s,
        {}
    }
    q * unit
}

/// Relies on sysconf::page::pagesize: the system's page size, read with
/// sysconf(_SC_PAGESIZE), which POSIX requires every system to answer.
#[verifier::external_body]
fn sys_pagesize() -> usize {
    sysconf::page::pagesize()
}

/// Relies on sysconf::page::hugepage_supported: whether the running
/// kernel offers huge pages of exactly the given size. The answer is
/// machine state, so nothing is promised of it.
#[verifier::external_body]
fn sys_hugepage_supported(size: usize) -> bool {
    sysconf::page::hugepage_supported(size)
}

/// Relies on sysconf::page::default_hugepage: the system's default huge
/// page size, if the platform reports one. The answer is machine state,
/// so nothing is promised of it.
#[verifier::external_body]
fn sys_default_hugepage() -> Option<usize> {
    sysconf::page::default_hugepage()
}

/// A builder for `MapAlloc`: the permissions mapped memory will carry,
/// the page size to work in, an optional huge-page size, and an optional
/// fixed object size for slab-shaped callers.
pub struct MapAllocBuilder {
    read: bool,
    write: bool,
    exec_flag: bool,
    pagesize: usize,
    huge_pagesize: Option<usize>,
    obj_size: Option<usize>,
}

impl MapAllocBuilder {
    /// The builder's page size is always positive.
    pub open spec fn wf(self) -> bool {
        self.spec_pagesize() >= 1
    }

    /// Requested read permission.
    pub closed spec fn spec_read(self) -> bool {
        self.read
    }

    /// Requested write permission.
    pub closed spec fn spec_write(self) -> bool {
        self.write
    }

    /// Requested execute permission.
    pub closed spec fn spec_exec(self) -> bool {
        self.exec_flag
    }

    /// The page size the builder works in.
    pub closed spec fn spec_pagesize(self) -> int {
        self.pagesize as int
    }

    /// The huge-page size, if one was requested.
    pub closed spec fn spec_huge_pagesize(self) -> Option<usize> {
        self.huge_pagesize
    }

    /// The object size, if one was fixed.
    pub closed spec fn spec_obj_size(self) -> Option<usize> {
        self.obj_size
    }

    /// Use huge pages of the given size.
    pub fn huge_pagesize(self, pagesize: usize) -> (r: MapAllocBuilder)
        ensures
            r.spec_huge_pagesize() == Some(pagesize),
            r.spec_read() == self.spec_read(),
            r.spec_write() == self.spec_write(),
            r.spec_exec() == self.spec_exec(),
            r.spec_pagesize() == self.spec_pagesize(),
            r.spec_obj_size() == self.spec_obj_size(),
            r.wf() == self.wf(),
    {
        MapAllocBuilder { huge_pagesize: Some(pagesize), ..self }
    }

    /// Use the system's default huge page size as both the page size and
    /// the huge-page size. Answers nothing when the platform reports no
    /// default huge page.
    pub fn default_huge_pagesize(self) -> (r: Option<MapAllocBuilder>)
        ensures
            match r {
                Some(b) => {
                    &&& b.spec_huge_pagesize() == Some(b.spec_pagesize() as usize)
                    &&& b.spec_read() == self.spec_read()
                    &&& b.spec_write() == self.spec_write()
                    &&& b.spec_exec() == self.spec_exec()
                    &&& b.spec_obj_size() == self.spec_obj_size()
                    &&& b.wf()
                },
                None => true,
            },
    {
        match sys_default_hugepage() {
            Some(pagesize) => {
                if pagesize >= 1 {
                    Some(
                        MapAllocBuilder {
                            pagesize,
                            huge_pagesize: Some(pagesize),
                            ..self
                        },
                    )
                } else {
                    None
                }
            },
            None => None,
        }
    }

    /// Enable read permission for allocated memory. The default is
    /// readable.
    pub fn read(self) -> (r: MapAllocBuilder)
        ensures
            r.spec_read(),
            r.spec_write() == self.spec_write(),
            r.spec_exec() == self.spec_exec(),
            r.spec_pagesize() == self.spec_pagesize(),
            r.spec_huge_pagesize() == self.spec_huge_pagesize(),
            r.spec_obj_size() == self.spec_obj_size(),
            r.wf() == self.wf(),
    {
        MapAllocBuilder { read: true, ..self }
    }

    /// Enable write permission for allocated memory. The default is
    /// writable.
    pub fn write(self) -> (r: MapAllocBuilder)
        ensures
            r.spec_write(),
            r.spec_read() == self.spec_read(),
            r.spec_exec() == self.spec_exec(),
            r.spec_pagesize() == self.spec_pagesize(),
            r.spec_huge_pagesize() == self.spec_huge_pagesize(),
            r.spec_obj_size() == self.spec_obj_size(),
            r.wf() == self.wf(),
    {
        MapAllocBuilder { write: true, ..self }
    }

    /// Enable execute permission for allocated memory. The default is
    /// non-executable.
    pub fn exec(self) -> (r: MapAllocBuilder)
        ensures
            r.spec_exec(),
            r.spec_read() == self.spec_read(),
            r.spec_write() == self.spec_write(),
            r.spec_pagesize() == self.spec_pagesize(),
            r.spec_huge_pagesize() == self.spec_huge_pagesize(),
            r.spec_obj_size() == self.spec_obj_size(),
            r.wf() == self.wf(),
    {
        MapAllocBuilder { exec_flag: true, ..self }
    }

    /// Disable read permission for allocated memory.
    pub fn no_read(self) -> (r: MapAllocBuilder)
        ensures
            !r.spec_read(),
            r.spec_write() == self.spec_write(),
            r.spec_exec() == self.spec_exec(),
            r.spec_pagesize() == self.spec_pagesize(),
            r.spec_huge_pagesize() == self.spec_huge_pagesize(),
            r.spec_obj_size() == self.spec_obj_size(),
            r.wf() == self.wf(),
    {
        MapAllocBuilder { read: false, ..self }
    }

    /// Disable write permission for allocated memory.
    pub fn no_write(self) -> (r: MapAllocBuilder)
        ensures
            !r.spec_write(),
            r.spec_read() == self.spec_read(),
            r.spec_exec() == self.spec_exec(),
            r.spec_pagesize() == self.spec_pagesize(),
            r.spec_huge_pagesize() == self.spec_huge_pagesize(),
            r.spec_obj_size() == self.spec_obj_size(),
            r.wf() == self.wf(),
    {
        MapAllocBuilder { write: false, ..self }
    }

    /// Disable execute permission for allocated memory.
    pub fn no_exec(self) -> (r: MapAllocBuilder)
        ensures
            !r.spec_exec(),
            r.spec_read() == self.spec_read(),
            r.spec_write() == self.spec_write(),
            r.spec_pagesize() == self.spec_pagesize(),
            r.spec_huge_pagesize() == self.spec_huge_pagesize(),
            r.spec_obj_size() == self.spec_obj_size(),
            r.wf() == self.wf(),
    {
        MapAllocBuilder { exec_flag: false, ..self }
    }

    /// Fix the object size handed out by the built allocator's
    /// slab-shaped interface. It must be a whole number of pages.
    pub fn obj_size(self, obj_size: usize) -> (r: MapAllocBuilder)
        ensures
            r.spec_obj_size() == Some(obj_size),
            r.spec_read() == self.spec_read(),
            r.spec_write() == self.spec_write(),
            r.spec_exec() == self.spec_exec(),
            r.spec_pagesize() == self.spec_pagesize(),
            r.spec_huge_pagesize() == self.spec_huge_pagesize(),
            r.wf() == self.wf(),
    {
        MapAllocBuilder { obj_size: Some(obj_size), ..self }
    }

    /// Build the configured allocator. The object size, if fixed, must
    /// be a whole number of pages. Building fails only when a huge-page
    /// size was requested that the running kernel does not offer.
    pub fn build(&self) -> (r: Option<MapAlloc>)
        requires
            self.wf(),
            match self.spec_obj_size() {
                Some(o) => o as int % self.spec_pagesize() == 0,
                None => true,
            },
        ensures
            self.spec_huge_pagesize() is None ==> r is Some,
            match r {
                Some(m) => {
                    &&& m.wf()
                    &&& m.spec_pagesize() == self.spec_pagesize()
                    &&& m.spec_huge_pagesize() == self.spec_huge_pagesize()
                    &&& m.spec_perms() == spec_perm(
                        self.spec_read(),
                        self.spec_write(),
                        self.spec_exec(),
                    )
                    &&& m.spec_obj_size() == (match self.spec_obj_size() {
                        Some(o) => o as int,
                        None => self.spec_pagesize(),
                    })
                },
                None => self.spec_huge_pagesize() is Some,
            },
    {
        if let Some(huge) = self.huge_pagesize {
            if !sys_hugepage_supported(huge) {
                return None;
            }
        }
        let obj_size = match self.obj_size {
            Some(o) => o,
            None => self.pagesize,
        };
        proof {
            vstd::arithmetic::div_mod::lemma_mod_self_0(self.spec_pagesize());
        }
        Some(
            MapAlloc {
                pagesize: self.pagesize,
                huge_pagesize: self.huge_pagesize,
                perms: get_perm(self.read, self.write, self.exec_flag),
                obj_size,
            },
        )
    }
}

impl Default for MapAllocBuilder {
    /// The default configuration: readable and writable but not
    /// executable, the system's page size, no huge pages, no fixed
    /// object size.
    fn default() -> (r: MapAllocBuilder)
        ensures
            r.wf(),
            r.spec_read(),
            r.spec_write(),
            !r.spec_exec(),
            r.spec_huge_pagesize() is None,
            r.spec_obj_size() is None,
    {
        let p = sys_pagesize();
        let pagesize = if p >= 1 {
            p
        } else {
            4096
        };
        MapAllocBuilder {
            read: true,
            write: true,
            exec_flag: false,
            pagesize,
            huge_pagesize: None,
            obj_size: None,
        }
    }
}

/// What the allocation path should do with the address the VM layer
/// answered: accept it, or unmap all but the first page and try again.
pub enum MapStep {
    /// The mapping is usable at this address.
    Done(usize),
    /// The mapping started at address zero: keep the first page mapped
    /// forever (so the VM layer can never answer zero again), unmap the
    /// rest, and retry.
    UnmapRetry {
        /// First address to unmap.
        unmap_base: usize,
        /// Number of bytes to unmap.
        unmap_size: usize,
    },
}

/// The configuration of a mapping allocator: page size, optional
/// huge-page size, protection word, and the fixed object size of its
/// slab-shaped interface.
pub struct MapAlloc {
    pagesize: usize,
    huge_pagesize: Option<usize>,
    perms: i32,
    obj_size: usize,
}

impl MapAlloc {
    /// Page size positive; the object size a positive whole number of
    /// pages.
    pub open spec fn wf(self) -> bool {
        &&& self.spec_pagesize() >= 1
        &&& self.spec_obj_size() % self.spec_pagesize() == 0
    }

    /// The page size mapped memory is aligned to.
    pub closed spec fn spec_pagesize(self) -> int {
        self.pagesize as int
    }

    /// The huge-page size, if one is in use.
    pub closed spec fn spec_huge_pagesize(self) -> Option<usize> {
        self.huge_pagesize
    }

    /// The protection word mapped memory is requested with.
    pub closed spec fn spec_perms(self) -> int {
        self.perms as int
    }

    /// The object size of the slab-shaped interface.
    pub closed spec fn spec_obj_size(self) -> int {
        self.obj_size as int
    }

    /// The page size mapped memory is aligned to, executable form.
    pub fn pagesize(&self) -> (r: usize)
        ensures
            r as int == self.spec_pagesize(),
    {
        self.pagesize
    }

    /// The protection word mapped memory is requested with, executable
    /// form.
    pub fn perms(&self) -> (r: i32)
        ensures
            r as int == self.spec_perms(),
    {
        self.perms
    }

    /// The object size of the slab-shaped interface, executable form.
    pub fn obj_size(&self) -> (r: usize)
        ensures
            r as int == self.spec_obj_size(),
    {
        self.obj_size
    }

    /// Decide what to do with the address the VM layer mapped `size`
    /// bytes at: accept any nonzero address; for a mapping at address
    /// zero, direct the caller to unmap everything past the first page
    /// and retry, leaking that one page so zero can never come back.
    pub fn alloc_helper(&self, size: usize, ptr: usize) -> (r: MapStep)
        requires
            self.wf(),
            self.spec_pagesize() <= size,
        ensures
            ptr != 0 ==> r == MapStep::Done(ptr),
            ptr == 0 ==> r == (MapStep::UnmapRetry {
                unmap_base: self.spec_pagesize() as usize,
                unmap_size: (size - self.spec_pagesize()) as usize,
            }),
    {
        if ptr != 0 {
            MapStep::Done(ptr)
        } else {
            MapStep::UnmapRetry { unmap_base: self.pagesize, unmap_size: size - self.pagesize }
        }
    }

    /// The page-rounded length the VM layer should map for a request of
    /// `size` bytes, and whether the requested alignment can be honored:
    /// page-aligned mappings serve any alignment up to a page.
    pub fn alloc_plan(&self, size: usize, align: usize) -> (r: Option<usize>)
        requires
            self.wf(),
            size <= usize::MAX - self.spec_pagesize(),
        ensures
            align as int <= self.spec_pagesize() <==> r is Some,
            match r {
                Some(len) => size <= len < size + self.spec_pagesize() && len as int
                    % self.spec_pagesize() == 0,
                None => true,
            },
    {
        if align > self.pagesize {
            None
        } else {
            Some(next_multiple(size, self.pagesize))
        }
    }

    /// Validate a commit request: the range must start on a page of the
    /// granularity in force (huge if huge pages are in use), and the
    /// caller's alignment cannot exceed it. Answers the step width the
    /// VM layer should touch pages in.
    pub fn commit(&self, ptr: usize, align: usize) -> (r: usize)
        requires
            self.wf(),
            match self.spec_huge_pagesize() {
                Some(h) => h >= 1 && ptr as int % h as int == 0 && align <= h,
                None => ptr as int % self.spec_pagesize() == 0 && align as int
                    <= self.spec_pagesize(),
            },
        ensures
            r as int == (match self.spec_huge_pagesize() {
                Some(h) => h as int,
                None => self.spec_pagesize(),
            }),
    {
        match self.huge_pagesize {
            Some(h) => h,
            None => self.pagesize,
        }
    }

    /// Validate an uncommit request the same way, answering the range
    /// the VM layer should mark unused.
    pub fn uncommit(&self, ptr: usize, size: usize, align: usize) -> (r: (usize, usize))
        requires
            self.wf(),
            match self.spec_huge_pagesize() {
                Some(h) => h >= 1 && ptr as int % h as int == 0 && align <= h,
                None => ptr as int % self.spec_pagesize() == 0 && align as int
                    <= self.spec_pagesize(),
            },
        ensures
            r == (ptr, size),
    {
        (ptr, size)
    }
}

impl Default for MapAlloc {
    /// The allocator built from the default builder configuration.
    fn default() -> (r: MapAlloc)
        ensures
            r.wf(),
    {
        let b = MapAllocBuilder::default();
        proof {
            vstd::arithmetic::div_mod::lemma_mod_self_0(b.spec_pagesize());
        }
        match b.build() {
            Some(m) => m,
            None => {
                proof {
                    assert(false);
                }
                MapAlloc { pagesize: 1, huge_pagesize: None, perms: 0, obj_size: 1 }
            },
        }
    }
}

} // verus!
