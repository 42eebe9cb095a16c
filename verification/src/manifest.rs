//! The manifest: the self-describing document a guest module hands the host
//! once, at load time.
//!
//! It combines the module's schema — an identity locator, a version string,
//! and its dependency locators — with the static table of routes the module
//! exports, in the shape
//! `{"schema": {"id": .., "version": .., "dependencies": [..]},
//!   "routes": [{"path": .., "export": ..}, ..]}`.
//! Building it is deterministic and total: for any schema and route table
//! the exact rendering is returned.

use crate::codec::enc_doc;
use crate::codec::encode_value;
use crate::value::Doc;
use crate::value::Value;
use vstd::prelude::*;
use vstd::string::StrSliceExecFns;
use vstd::string::StringSliceAdditionalSpecFns;
use vstd::utf8::encode_utf8;

verus! {

/// One route exported by a guest module: a logical path and the name of
/// the exported dispatch symbol that serves it.
#[derive(Clone, Copy)]
pub struct RouteExport {
    /// The route's logical path.
    pub path: &'static str,
    /// The exported symbol that dispatches the route.
    pub export: &'static str,
}

impl RouteExport {
    /// Pairs a path with its exported symbol name.
    pub fn new(path: &'static str, export: &'static str) -> (r: RouteExport)
        ensures
            r.path@ == path@,
            r.export@ == export@,
    {
        RouteExport { path, export }
    }
}

/// A module's schema: its identity locator, version, and dependency
/// locators.
pub struct LibrarySchema {
    /// The module's identity locator.
    pub id: String,
    /// The module's version string.
    pub version: String,
    /// The locators of the modules this one depends on, in order.
    pub dependencies: Vec<String>,
}

/// The document describing one route export.
pub open spec fn route_doc(r: RouteExport) -> Doc {
    Doc::Obj(
        seq![
            ("path".spec_bytes(), Doc::Str(r.path.spec_bytes())),
            ("export".spec_bytes(), Doc::Str(r.export.spec_bytes())),
        ],
    )
}

/// The document describing a module's schema.
pub open spec fn schema_doc(s: LibrarySchema) -> Doc {
    Doc::Obj(
        seq![
            ("id".spec_bytes(), Doc::Str(encode_utf8(s.id@))),
            ("version".spec_bytes(), Doc::Str(encode_utf8(s.version@))),
            (
                "dependencies".spec_bytes(),
                Doc::Arr(
                    Seq::new(
                        s.dependencies@.len(),
                        |i: int|
                            if 0 <= i < s.dependencies@.len() {
                                Doc::Str(encode_utf8(s.dependencies@[i]@))
                            } else {
                                Doc::Null
                            },
                    ),
                ),
            ),
        ],
    )
}

/// The whole manifest document for a schema and a route table.
pub open spec fn manifest_doc(s: LibrarySchema, routes: Seq<RouteExport>) -> Doc {
    Doc::Obj(
        seq![
            ("schema".spec_bytes(), schema_doc(s)),
            (
                "routes".spec_bytes(),
                Doc::Arr(
                    Seq::new(
                        routes.len(),
                        |i: int|
                            if 0 <= i < routes.len() {
                                route_doc(routes[i])
                            } else {
                                Doc::Null
                            },
                    ),
                ),
            ),
        ],
    )
}

/// Renders the manifest for a schema and its static route table.  The
/// result is exactly the rendering of [`manifest_doc`]; nothing about it
/// depends on anything but the arguments.
pub fn manifest_bytes(schema: &LibrarySchema, routes: &[RouteExport]) -> (r: Vec<u8>)
    ensures
        r@ == enc_doc(manifest_doc(*schema, routes@)),
{
    let nd = schema.dependencies.len();
    let mut deps: Vec<Value> = Vec::new();
    let mut i: usize = 0;
    while i < nd
        invariant
            i <= nd,
            nd == schema.dependencies@.len(),
            deps@.len() == i,
            forall|k: int|
                0 <= k < i ==> (#[trigger] deps@[k])@ == Doc::Str(
                    encode_utf8(schema.dependencies@[k]@),
                ),
        decreases nd - i,
    {
        deps.push(Value::Str(schema.dependencies[i].as_str().as_bytes_vec()));
        i = i + 1;
    }
    let mut sm: Vec<(Vec<u8>, Value)> = Vec::new();
    sm.push(("id".as_bytes_vec(), Value::Str(schema.id.as_str().as_bytes_vec())));
    sm.push(("version".as_bytes_vec(), Value::Str(schema.version.as_str().as_bytes_vec())));
    sm.push(("dependencies".as_bytes_vec(), Value::List(deps)));
    let schema_v = Value::Object(sm);
    proof {
        let sd = schema_doc(*schema);
        assert(sm@.len() == 3);
        assert(sm@[0].0@ == "id".spec_bytes());
        assert(sm@[0].1@ == Doc::Str(encode_utf8(schema.id@)));
        assert(sm@[1].0@ == "version".spec_bytes());
        assert(sm@[1].1@ == Doc::Str(encode_utf8(schema.version@)));
        assert(sm@[2].0@ == "dependencies".spec_bytes());
        assert(sm@[2].1@->Arr_0 =~= sd->Obj_0[2].1->Arr_0);
        assert(sm@[2].1@ =~~= sd->Obj_0[2].1);
        assert(schema_v@->Obj_0 =~~= sd->Obj_0);
        assert(schema_v@ =~~= sd);
    }
    let nr = routes.len();
    let mut rts: Vec<Value> = Vec::new();
    let mut j: usize = 0;
    while j < nr
        invariant
            j <= nr,
            nr == routes@.len(),
            rts@.len() == j,
            forall|k: int| 0 <= k < j ==> (#[trigger] rts@[k])@ == route_doc(routes@[k]),
        decreases nr - j,
    {
        let rt = routes[j];
        let mut rm: Vec<(Vec<u8>, Value)> = Vec::new();
        rm.push(("path".as_bytes_vec(), Value::Str(rt.path.as_bytes_vec())));
        rm.push(("export".as_bytes_vec(), Value::Str(rt.export.as_bytes_vec())));
        let rv = Value::Object(rm);
        proof {
            let rd = route_doc(routes@[j as int]);
            assert(rm@.len() == 2);
            assert(rm@[0].0@ == "path".spec_bytes());
            assert(rm@[0].1@ == Doc::Str(routes@[j as int].path.spec_bytes()));
            assert(rm@[1].0@ == "export".spec_bytes());
            assert(rm@[1].1@ == Doc::Str(routes@[j as int].export.spec_bytes()));
            assert(rv@->Obj_0 =~~= rd->Obj_0);
            assert(rv@ =~~= rd);
        }
        rts.push(rv);
        j = j + 1;
    }
    let mut tm: Vec<(Vec<u8>, Value)> = Vec::new();
    tm.push(("schema".as_bytes_vec(), schema_v));
    tm.push(("routes".as_bytes_vec(), Value::List(rts)));
    let v = Value::Object(tm);
    proof {
        let md = manifest_doc(*schema, routes@);
        assert(tm@.len() == 2);
        assert(tm@[0].0@ == "schema".spec_bytes());
        assert(tm@[0].1@ =~~= md->Obj_0[0].1);
        assert(tm@[1].0@ == "routes".spec_bytes());
        assert(tm@[1].1@->Arr_0 =~= md->Obj_0[1].1->Arr_0);
        assert(tm@[1].1@ =~~= md->Obj_0[1].1);
        assert(v@->Obj_0 =~~= md->Obj_0);
        assert(v@ =~~= md);
    }
    encode_value(&v)
}

} // verus!
