//! Where gamescope is found, and what is asked of it.

use vstd::prelude::*;

verus! {

/// The oldest version of the control interface that will do.
pub const MIN_VERSION: u32 = 2;

/// The version to bind an announced interface at, if it is the control interface in a
/// version that will do. `newest` is the newest version that is understood here.
pub fn version_to_bind(interface: &String, version: u32, newest: u32) -> (bind: Option<u32>)
    ensures
        bind == if interface@ == "gamescope_control"@ && version >= MIN_VERSION {
            Some(
                if version < newest {
                    version
                } else {
                    newest
                },
            )
        } else {
            None
        },
{
    if *interface == "gamescope_control".to_owned() && version >= MIN_VERSION {
        Some(
            if version < newest {
                version
            } else {
                newest
            },
        )
    } else {
        None
    }
}

/// The slash, as a byte.
pub const SLASH: u8 = 0x2f;

/// The display that is meant where none is named: `gamescope-0`.
pub open spec fn default_display() -> Seq<u8> {
    seq![
        0x67u8,
        0x61u8,
        0x6du8,
        0x65u8,
        0x73u8,
        0x63u8,
        0x6fu8,
        0x70u8,
        0x65u8,
        0x2du8,
        0x30u8,
    ]
}

/// Whether a path starts at the root.
pub open spec fn is_absolute_path(path: Seq<u8>) -> bool {
    path.len() > 0 && path[0] == SLASH
}

/// A directory and a relative path in it as one path.
pub open spec fn joined(dir: Seq<u8>, name: Seq<u8>) -> Seq<u8> {
    if dir.len() > 0 && dir.last() != SLASH {
        dir.push(SLASH) + name
    } else {
        dir + name
    }
}

/// The path of the socket of a display.
pub open spec fn path_of_display(name: Seq<u8>, runtime_dir: Option<Seq<u8>>) -> Option<Seq<u8>> {
    if is_absolute_path(name) {
        Some(name)
    } else {
        match runtime_dir {
            Some(dir) => if is_absolute_path(dir) {
                Some(joined(dir, name))
            } else {
                None
            },
            None => None,
        }
    }
}

/// The bytes of a name, if there is one.
pub open spec fn bytes_of(name: Option<Vec<u8>>) -> Option<Seq<u8>> {
    match name {
        Some(bytes) => Some(bytes@),
        None => None,
    }
}

/// The path of gamescope's socket, from the display that is named and the directory for
/// sockets.
pub fn socket_path(display: Option<Vec<u8>>, runtime_dir: Option<Vec<u8>>) -> (path: Option<
    Vec<u8>,
>)
    ensures
        bytes_of(path) == path_of_display(
            match display {
                Some(name) => name@,
                None => default_display(),
            },
            bytes_of(runtime_dir),
        ),
{
    let mut name: Vec<u8> = match display {
        Some(name) => name,
        None => vec![0x67, 0x61, 0x6d, 0x65, 0x73, 0x63, 0x6f, 0x70, 0x65, 0x2d, 0x30],
    };
    if name.len() > 0 && name[0] == SLASH {
        return Some(name);
    }
    match runtime_dir {
        Some(dir) => {
            if dir.len() == 0 || dir[0] != SLASH {
                return None;
            }
            let mut path: Vec<u8> = dir;
            if path[path.len() - 1] != SLASH {
                path.push(SLASH);
            }
            path.append(&mut name);
            Some(path)
        },
        None => None,
    }
}

/// A path that is found starts at the root, whatever it was made from.
pub proof fn law_socket_path_is_absolute(name: Seq<u8>, runtime_dir: Option<Seq<u8>>)
    ensures
        path_of_display(name, runtime_dir) matches Some(path) ==> is_absolute_path(path),
{
}

/// A display that is named by its place is looked for there, wherever sockets are kept.
pub proof fn law_absolute_display_needs_no_directory(name: Seq<u8>, runtime_dir: Option<Seq<u8>>)
    requires
        is_absolute_path(name),
    ensures
        path_of_display(name, runtime_dir) == Some(name),
{
}

/// Where the socket of a display is: at the name itself where that starts with a slash; else,
/// where there is a directory that starts with one, at the name in that directory, with one
/// slash between them unless the directory ends in one; else nowhere.
pub proof fn law_where_the_socket_is(name: Seq<u8>, runtime_dir: Option<Seq<u8>>)
    ensures
        name.len() > 0 && name[0] == 47 ==> path_of_display(name, runtime_dir) == Some(name),
        !(name.len() > 0 && name[0] == 47) ==> match runtime_dir {
            Some(dir) => if dir.len() > 0 && dir[0] == 47 {
                &&& path_of_display(name, runtime_dir) is Some
                &&& path_of_display(name, runtime_dir).unwrap() == if dir[dir.len() - 1] == 47 {
                    dir + name
                } else {
                    dir + seq![47u8] + name
                }
            } else {
                path_of_display(name, runtime_dir) is None
            },
            None => path_of_display(name, runtime_dir) is None,
        },
{
    if let Some(dir) = runtime_dir {
        if dir.len() > 0 {
            assert(dir.push(47u8) + name =~= dir + seq![47u8] + name);
        }
    }
}

/// The display that is meant where none is named is `gamescope-0`.
pub proof fn law_default_display()
    ensures
        default_display() == seq![103u8, 97u8, 109u8, 101u8, 115u8, 99u8, 111u8, 112u8, 101u8, 45u8, 48u8],
{
}

} // verus!
