use vstd::prelude::*;

verus! {

/// The image definition for the agent sandbox: the agent's base image (the
/// `SANDBOX_BASE` build argument) with the Rust toolchain, the desktop-app
/// build dependencies, pnpm and the tracker's command-line client, run as an
/// unprivileged user.
pub const DOCKERFILE: &'static str = "ARG SANDBOX_BASE
FROM ${SANDBOX_BASE}

USER root

RUN apt-get update && apt-get install -y --no-install-recommends \\
    build-essential \\
    curl \\
    pkg-config \\
    libssl-dev \\
    libwebkit2gtk-4.1-dev \\
    libgtk-3-dev \\
    libayatana-appindicator3-dev \\
    librsvg2-dev \\
    && rm -rf /var/lib/apt/lists/*

COPY pn /usr/local/bin/pn
RUN chmod +x /usr/local/bin/pn

USER agent
WORKDIR /home/agent

RUN curl --proto '=https' --tlsv1.2 -sSf https://sh.rustup.rs | sh -s -- -y --default-toolchain none
ENV PATH=\"/home/agent/.cargo/bin:${PATH}\"
RUN rustup default stable \\
    && rustup component add rustfmt clippy \\
    && rustc --version \\
    && cargo --version
RUN cargo install tauri-cli

RUN corepack enable \\
    && pnpm setup
";

} // verus!
