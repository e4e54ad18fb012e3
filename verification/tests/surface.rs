use surf_core::{public_fns, public_symbols, Lang, Surface};

    fn syms(source: &str, lang: Lang) -> Vec<String> {
        public_fns(source, lang)
    }

    #[test]
    fn rust_only_unrestricted_pub_fns() {
        // Functions only; private, `pub(crate)`, and non-fn items (struct/enum/impl) excluded.
        let src = "pub fn a() {}\nfn b() {}\npub(crate) fn c() {}\npub struct S;\nenum E {}\nimpl S { pub fn m(&self) {} }\n";
        assert_eq!(syms(src, Lang::Rust), vec!["a".to_string()]);
    }

    #[test]
    fn ts_only_exported_fns() {
        let src = "export function a() {}\nfunction b() {}\nexport const c = () => {};\nexport class D {}\nexport const e = 1;\n";
        assert_eq!(
            syms(src, Lang::TypeScript),
            vec!["a".to_string(), "c".to_string()]
        );
    }

    #[test]
    fn python_only_nonunderscore_defs() {
        let src = "def a():\n    pass\ndef _b():\n    pass\nclass C:\n    pass\n";
        assert_eq!(syms(src, Lang::Python), vec!["a".to_string()]);
    }

    #[test]
    fn go_only_capitalized_funcs() {
        let src = "package p\nfunc Exported() {}\nfunc unexported() {}\ntype Foo struct{}\n";
        assert_eq!(syms(src, Lang::Go), vec!["Exported".to_string()]);
    }

    #[test]
    fn python_symbols_include_class_methods() {
        let src = "\
def top():
    pass
class C:
    def visible(self):
        pass
    async def visible(self):  # sync/async mirror dedupes
        pass
    def _private(self):
        pass
    def __init__(self):
        pass
class _Hidden:
    def m(self):
        pass
";
        assert_eq!(
            public_symbols(src, Lang::Python, Surface::Callables),
            vec![
                vec!["C".to_string(), "visible".to_string()],
                vec!["top".to_string()],
            ]
        );
    }

    #[test]
    fn python_decorated_methods_are_enumerated() {
        let src = "\
class C:
    @property
    def value(self):
        pass
";
        assert_eq!(
            public_symbols(src, Lang::Python, Surface::Callables),
            vec![vec!["C".to_string(), "value".to_string()]]
        );
    }

    #[test]
    fn go_symbols_include_methods_by_receiver() {
        // Pointer and value receivers both yield the bare type name; lowercase method and
        // method on an unexported type are excluded.
        let src = "\
package p
func Top() {}
type Builder struct{}
func (b *Builder) Set() {}
func (ls Labels) String() string { return \"\" }
func (b *Builder) internal() {}
type priv struct{}
func (p *priv) Exported() {}
";
        assert_eq!(
            public_symbols(src, Lang::Go, Surface::Callables),
            vec![
                vec!["Builder".to_string(), "Set".to_string()],
                vec!["Labels".to_string(), "String".to_string()],
                vec!["Top".to_string()],
            ]
        );
    }

    #[test]
    fn rust_symbols_are_top_level_fns_only() {
        let src = "pub fn a() {}\nfn b() {}\nimpl S { pub fn m(&self) {} }\n";
        assert_eq!(public_symbols(src, Lang::Rust, Surface::Callables), vec![vec!["a".to_string()]]);
    }

    #[test]
    fn python_all_adds_classes_and_non_callables() {
        // Every kind #28 made anchorable, plus the class itself — withheld under Callables,
        // proposed under All. `_`-prefixed names stay private in both modes (#52).
        let src = "\
CONST_VALUE = 42
MyAlias = dict[str, int]
type NewAlias = int
_hidden = 1

def top_level_func(x):
    return x

class TopLevelClass:
    attr: int = 1
    _secret = 2
    def method(self):
        return self.attr
";
        // Callables: only the function and the method.
        assert_eq!(
            public_symbols(src, Lang::Python, Surface::Callables),
            vec![
                vec!["TopLevelClass".to_string(), "method".to_string()],
                vec!["top_level_func".to_string()],
            ]
        );
        // All: also the class, both module-level aliases, the constant, and the class attribute.
        assert_eq!(
            public_symbols(src, Lang::Python, Surface::All),
            vec![
                vec!["CONST_VALUE".to_string()],
                vec!["MyAlias".to_string()],
                vec!["NewAlias".to_string()],
                vec!["TopLevelClass".to_string()],
                vec!["TopLevelClass".to_string(), "attr".to_string()],
                vec!["TopLevelClass".to_string(), "method".to_string()],
                vec!["top_level_func".to_string()],
            ]
        );
    }

    #[test]
    fn all_is_callables_only_for_non_python() {
        // The non-callable extension is Python-scoped for now; --all must not change Rust/Go/TS
        // output, so a Rust repo's lint nudge and suggest stay identical across modes.
        let rust = "pub fn a() {}\npub struct S;\npub const K: u8 = 1;\n";
        assert_eq!(
            public_symbols(rust, Lang::Rust, Surface::All),
            public_symbols(rust, Lang::Rust, Surface::Callables)
        );
        let go = "package p\nfunc Top() {}\ntype Builder struct{}\nconst K = 1\n";
        assert_eq!(
            public_symbols(go, Lang::Go, Surface::All),
            public_symbols(go, Lang::Go, Surface::Callables)
        );
    }
