use zellij_command_hook::kdl::process_kdl_content;

#[test]
fn test_process_kdl_content_single_file() {
    let input = r#"pane command="/home/zach/.nix-profile/bin/nvim" {
            args "--cmd" "lua vim.opt.packpath:prepend('/nix/store/test')" "file.txt"
            start_suspended true
        }"#;

    let (result, changes) = process_kdl_content(input);

    // Should have command="nvim" with args "file.txt"
    assert!(result.contains(r#"command="nvim""#));
    assert!(result.contains(r#"args "file.txt""#));
    assert!(result.contains("start_suspended true"));
    assert_eq!(changes.len(), 1);
}

#[test]
fn test_process_kdl_content_multiple_files() {
    let input = r#"
            pane command="/home/zach/.nix-profile/bin/nvim" focus=true size="50%" {
                args "--cmd" "lua vim.opt.packpath:prepend('/nix/store/7fcfmii0vli2ncrgw8phdj1r7zcxf0fc-mnw-configDir');vim.opt.runtimepath:prepend('/nix/store/7fcfmii0vli2ncrgw8phdj1r7zcxf0fc-mnw-configDir');vim.g.loaded_node_provider=0;vim.g.loaded_perl_provider=0;vim.g.loaded_python_provider=0;vim.g.loaded_python3_provider=0;vim.g.ruby_host_prog='/nix/store/4pm6h00i8jizd1vcfh90gkfsipd634rc-neovim-providers/bin/neovim-ruby-host'" "--cmd" "lua vim.opt.packpath:prepend('/nix/store/7fcfmii0vli2ncrgw8phdj1r7zcxf0fc-mnw-configDir');vim.opt.runtimepath:prepend('/nix/store/7fcfmii0vli2ncrgw8phdj1r7zcxf0fc-mnw-configDir');vim.g.loaded_node_provider=0;vim.g.loaded_perl_provider=0;vim.g.loaded_python_provider=0;vim.g.loaded_python3_provider=0;vim.g.ruby_host_prog='/nix/store/4pm6h00i8jizd1vcfh90gkfsipd634rc-neovim-providers/bin/neovim-ruby-host'" "--cmd" "lua vim.opt.packpath:prepend('/nix/store/7fcfmii0vli2ncrgw8phdj1r7zcxf0fc-mnw-configDir');vim.opt.runtimepath:prepend('/nix/store/7fcfmii0vli2ncrgw8phdj1r7zcxf0fc-mnw-configDir');vim.g.loaded_node_provider=0;vim.g.loaded_perl_provider=0;vim.g.loaded_python_provider=0;vim.g.loaded_python3_provider=0;vim.g.ruby_host_prog='/nix/store/4pm6h00i8jizd1vcfh90gkfsipd634rc-neovim-providers/bin/neovim-ruby-host'" "file1.rs" "file2.rs"
                start_suspended true
        }"#;

    let (result, changes) = process_kdl_content(input);

    // Should have command="nvim" with args "file1.rs" "file2.rs"
    assert!(result.contains(r#"command="nvim""#));
    assert!(result.contains(r#"args "file1.rs" "file2.rs""#));
    assert!(result.contains("start_suspended true"));
    assert_eq!(changes.len(), 1);
}

#[test]
fn test_process_kdl_content_no_files() {
    let input = r#"pane command="/usr/bin/nvim" {
            args
            start_suspended true
        }"#;

    let (result, changes) = process_kdl_content(input);

    // Should have command="nvim" with no args line (no files)
    assert!(result.contains(r#"command="nvim""#));
    assert!(!result.contains("args"));
    assert!(result.contains("start_suspended true"));
    assert_eq!(changes.len(), 1);
}

#[test]
fn test_process_kdl_content_already_simplified() {
    let input = r#"pane command="nvim" {
            args "asdf" "file.txt"
            start_suspended true
}"#;

    let (result, changes) = process_kdl_content(input);

    // Should remain the same since it's already simplified
    assert_eq!(result.trim(), input.trim());
    assert_eq!(changes.len(), 0);
}
