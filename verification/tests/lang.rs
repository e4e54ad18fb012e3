use surf_core::Lang;

    #[test]
    fn detects_by_extension() {
        assert_eq!(
            Lang::from_path("src/auth/refresh.ts"),
            Some(Lang::TypeScript)
        );
        assert_eq!(Lang::from_path("App.tsx"), Some(Lang::Tsx));
        assert_eq!(Lang::from_path("src/main.rs"), Some(Lang::Rust));
        assert_eq!(Lang::from_path("api/server.py"), Some(Lang::Python));
        assert_eq!(Lang::from_path("cmd/main.go"), Some(Lang::Go));
        assert_eq!(Lang::from_path("README.md"), None);
        assert_eq!(Lang::from_path("Makefile"), None);
    }

#[test]
fn javascript_is_read_from_js_files_only() {
    assert_eq!(Lang::from_path("web/app.js"), Some(Lang::JavaScript));
    assert_eq!(Lang::from_path("web/app.jsx"), None);
    assert_eq!(Lang::from_path("web/app.mjs"), None);
    assert_eq!(Lang::from_path("web/app.cjs"), None);
}
