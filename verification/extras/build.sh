#!/bin/sh
# Builds the Worker with the commit being built stamped into it, so the status
# page can say exactly which source is deployed. What git cannot say stays
# unset, and the page then says "unknown".
set -eu
cd "$(dirname "$0")/.."

if commit=$(git rev-parse --short HEAD 2>/dev/null); then
    export GIT_COMMIT="$commit"
fi
# A dirty tree means the deployed build matches no commit.
if changes=$(git status --porcelain 2>/dev/null); then
    export GIT_CHANGES="$changes"
fi
exec worker-build --release "$@"
